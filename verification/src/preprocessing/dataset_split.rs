//! Three-way (train/val/test) spatially disjoint, optionally class-stratified
//! macro-tile split for labeled block datasets, over one or more merged inputs.
//!
//! This module computes which macro-tiles, and therefore which blocks, go into
//! each of up to three subsets. It touches no files.

use vstd::prelude::*;

use crate::counting::{lemma_places_step, places};
use crate::error::{pipeline_text, shows, ClassifierError, ShowModel};
use crate::ieee::{ONE, Real64};
use crate::ordering::{
    law_shuffle_permutes, law_sort_is_stable, seeded_shuffle, shuffled, sort_desc, sorted_desc,
};
use crate::preprocessing::labeled_pipeline::{LabeledBlockManifest, LabeledBlockMeta};
use crate::preprocessing::split_assign::{
    all_listed, greedy, greedy_assign, on_target, positions_ok, rebalance_by_size, rebalanced,
    tile_number, total_of, CostOrder, CostRanking, TileInfo,
};
use crate::preprocessing::tile_counts::{all_points, global_points, is_tile_stats, tile_stats};
use crate::text::{concat3, decimal, decimal_text};
use crate::text_map::{same_map, TextMap};

verus! {

/// A macro-tile: the position of its manifest among the inputs, and its number
/// within that manifest.
pub type TileKey = (usize, u32);

/// A block: the position of its manifest among the inputs, and its local ID.
pub type BlockRef = (usize, u64);

/// Lexicographic order of macro-tiles.
pub open spec fn key_less(a: TileKey, b: TileKey) -> bool {
    a.0 < b.0 || (a.0 == b.0 && a.1 < b.1)
}

/// The blocks of macro-tile `tile` among `blocks`, in their order.
pub open spec fn refs_in(dir: usize, blocks: Seq<LabeledBlockMeta>, tile: u32) -> Seq<BlockRef>
    decreases blocks.len(),
{
    if blocks.len() == 0 {
        Seq::empty()
    } else {
        let before = refs_in(dir, blocks.drop_last(), tile);
        if blocks.last().macro_tile_id == tile {
            before.push((dir, blocks.last().meta.id))
        } else {
            before
        }
    }
}

/// The blocks of macro-tile `key`, in manifest order.
pub open spec fn tile_blocks(
    manifests: Seq<&LabeledBlockManifest>,
    key: TileKey,
) -> Seq<BlockRef> {
    refs_in(key.0, manifests[key.0 as int].blocks@, key.1)
}

/// One macro-tile with its blocks.
pub struct TileGroup {
    pub key: TileKey,
    pub blocks: Vec<BlockRef>,
}

/// Strictly ascending by key.
pub open spec fn keys_ascend(groups: Seq<TileGroup>) -> bool {
    forall|i: int, j: int|
        0 <= i < j < groups.len() ==> key_less(
            (#[trigger] groups[i]).key,
            (#[trigger] groups[j]).key,
        )
}

/// `groups` holds the macro-tiles of the first `dirs` manifests and of the
/// first `upto` blocks of the next one.
pub open spec fn groups_cover(
    groups: Seq<TileGroup>,
    manifests: Seq<&LabeledBlockManifest>,
    dirs: int,
    upto: int,
) -> bool {
    &&& keys_ascend(groups)
    &&& forall|i: int|
        0 <= i < groups.len() ==> {
            let g = #[trigger] groups[i];
            &&& g.key.0 <= dirs
            &&& g.key.0 < manifests.len()
            &&& g.blocks@.len() > 0
            &&& g.key.0 < dirs ==> g.blocks@ == tile_blocks(manifests, g.key)
            &&& g.key.0 == dirs ==> g.blocks@ == refs_in(
                g.key.0,
                manifests[dirs].blocks@.take(upto),
                g.key.1,
            )
        }
    &&& forall|d: int, j: int|
        0 <= d < manifests.len() && 0 <= j < manifests[d].blocks@.len() && (d < dirs || (d == dirs
            && j < upto)) ==> has_key(
            groups,
            (d as usize, (#[trigger] manifests[d].blocks@[j]).macro_tile_id),
        )
}

pub open spec fn has_key(groups: Seq<TileGroup>, key: TileKey) -> bool {
    exists|i: int| 0 <= i < groups.len() && (#[trigger] groups[i]).key == key
}

/// The macro-tiles of all manifests, ascending by key, each with its blocks.
pub open spec fn is_grouping(
    groups: Seq<TileGroup>,
    manifests: Seq<&LabeledBlockManifest>,
) -> bool {
    groups_cover(groups, manifests, manifests.len() as int, 0)
}

/// The position of `key`, or where it would stand.
pub fn find_tile(groups: &Vec<TileGroup>, key: TileKey) -> (r: (bool, usize))
    requires
        keys_ascend(groups@),
    ensures
        r.1 <= groups@.len(),
        r.0 ==> r.1 < groups@.len() && groups@[r.1 as int].key == key,
        r.0 == has_key(groups@, key),
        forall|i: int| 0 <= i < r.1 ==> key_less((#[trigger] groups@[i]).key, key),
        !r.0 ==> forall|i: int|
            r.1 <= i < groups@.len() ==> key_less(key, (#[trigger] groups@[i]).key),
{
    let mut lo: usize = 0;
    let mut hi: usize = groups.len();
    while lo < hi
        invariant
            lo <= hi <= groups@.len(),
            keys_ascend(groups@),
            forall|i: int| 0 <= i < lo ==> key_less((#[trigger] groups@[i]).key, key),
            forall|i: int| hi <= i < groups@.len() ==> !key_less((#[trigger] groups@[i]).key, key),
        decreases hi - lo,
    {
        let mid: usize = lo + (hi - lo) / 2;
        let k = groups[mid].key;
        if k.0 < key.0 || (k.0 == key.0 && k.1 < key.1) {
            assert forall|i: int| 0 <= i < mid + 1 implies key_less((#[trigger] groups@[i]).key, key) by {
                if i < mid {
                    assert(key_less(groups@[i].key, groups@[mid as int].key));
                }
            }
            lo = mid + 1;
        } else {
            assert forall|i: int| mid <= i < groups@.len() implies !key_less(
                (#[trigger] groups@[i]).key,
                key,
            ) by {
                if i > mid {
                    assert(key_less(groups@[mid as int].key, groups@[i].key));
                }
            }
            hi = mid;
        }
    }
    if lo < groups.len() {
        let k = groups[lo].key;
        if k.0 == key.0 && k.1 == key.1 {
            return (true, lo);
        }
    }
    proof {
        assert forall|i: int| lo <= i < groups@.len() implies key_less(
            key,
            (#[trigger] groups@[i]).key,
        ) by {
            if i > lo {
                assert(key_less(groups@[lo as int].key, groups@[i].key));
            }
        }
    }
    (false, lo)
}

proof fn lemma_refs_in_other(dir: usize, blocks: Seq<LabeledBlockMeta>, j: int, tile: u32)
    requires
        0 <= j < blocks.len(),
    ensures
        refs_in(dir, blocks.take(j + 1), tile) == (if blocks[j].macro_tile_id == tile {
            refs_in(dir, blocks.take(j), tile).push((dir, blocks[j].meta.id))
        } else {
            refs_in(dir, blocks.take(j), tile)
        }),
{
    assert(blocks.take(j + 1).drop_last() =~= blocks.take(j));
    assert(blocks.take(j + 1).last() == blocks[j]);
}

proof fn lemma_refs_in_absent(dir: usize, blocks: Seq<LabeledBlockMeta>, tile: u32)
    requires
        forall|j: int| 0 <= j < blocks.len() ==> (#[trigger] blocks[j]).macro_tile_id != tile,
    ensures
        refs_in(dir, blocks, tile) == Seq::<BlockRef>::empty(),
    decreases blocks.len(),
{
    if blocks.len() > 0 {
        assert(blocks.last() == blocks[blocks.len() - 1]);
        assert forall|j: int| 0 <= j < blocks.drop_last().len() implies (
        #[trigger] blocks.drop_last()[j]).macro_tile_id != tile by {
            assert(blocks[j] == blocks.drop_last()[j]);
        }
        lemma_refs_in_absent(dir, blocks.drop_last(), tile);
    }
}

/// The number of blocks in the first `dirs` manifests.
pub open spec fn block_total(manifests: Seq<&LabeledBlockManifest>, dirs: int) -> int
    decreases dirs,
{
    if dirs <= 0 {
        0
    } else {
        block_total(manifests, dirs - 1) + manifests[dirs - 1].blocks@.len()
    }
}

/// Groups the blocks of all manifests by macro-tile. Tiles of different
/// manifests are never merged, whatever their numbers.
pub fn group_tiles(manifests: &[&LabeledBlockManifest]) -> (groups: Vec<TileGroup>)
    ensures
        is_grouping(groups@, manifests@),
        groups@.len() <= block_total(manifests@, manifests@.len() as int),
{
    let mut groups: Vec<TileGroup> = Vec::new();
    let mut dir: usize = 0;
    while dir < manifests.len()
        invariant
            dir <= manifests@.len(),
            groups_cover(groups@, manifests@, dir as int, 0),
            groups@.len() <= block_total(manifests@, dir as int),
        decreases manifests@.len() - dir,
    {
        let blocks = &manifests[dir].blocks;
        let mut j: usize = 0;
        while j < blocks.len()
            invariant
                dir < manifests@.len(),
                blocks@ == manifests@[dir as int].blocks@,
                j <= blocks@.len(),
                groups_cover(groups@, manifests@, dir as int, j as int),
                groups@.len() <= block_total(manifests@, dir as int) + j,
            decreases blocks@.len() - j,
        {
            let ghost before = groups@;
            let key: TileKey = (dir, blocks[j].macro_tile_id);
            let id: u64 = blocks[j].meta.id;
            let (found, at) = find_tile(&groups, key);
            if found {
                let mut list: Vec<BlockRef> = Vec::new();
                std::mem::swap(&mut list, &mut groups[at].blocks);
                list.push((dir, id));
                groups.set(at, TileGroup { key, blocks: list });
                proof {
                    lemma_group_appended(before, groups@, manifests@, dir as int, j as int, at as int);
                }
            } else {
                let mut list: Vec<BlockRef> = Vec::new();
                list.push((dir, id));
                groups.insert(at, TileGroup { key, blocks: list });
                proof {
                    lemma_group_inserted(before, groups@, manifests@, dir as int, j as int, at as int);
                }
            }
            j = j + 1;
        }
        proof {
            assert(blocks@.take(j as int) =~= blocks@);
            assert(groups_cover(groups@, manifests@, dir + 1, 0));
        }
        dir = dir + 1;
    }
    groups
}

proof fn lemma_group_appended(
    before: Seq<TileGroup>,
    after: Seq<TileGroup>,
    manifests: Seq<&LabeledBlockManifest>,
    dir: int,
    j: int,
    at: int,
)
    requires
        0 <= dir < manifests.len(),
        dir <= usize::MAX,
        0 <= j < manifests[dir].blocks@.len(),
        groups_cover(before, manifests, dir, j),
        0 <= at < before.len(),
        before[at].key == (dir as usize, manifests[dir].blocks@[j].macro_tile_id),
        after.len() == before.len(),
        forall|i: int| 0 <= i < before.len() && i != at ==> #[trigger] after[i] == before[i],
        after[at].key == before[at].key,
        after[at].blocks@ == before[at].blocks@.push(
            (dir as usize, manifests[dir].blocks@[j].meta.id),
        ),
    ensures
        groups_cover(after, manifests, dir, j + 1),
{
    let blocks = manifests[dir].blocks@;
    assert forall|a: int, b: int| 0 <= a < b < after.len() implies key_less(
        (#[trigger] after[a]).key,
        (#[trigger] after[b]).key,
    ) by {
        assert(key_less(before[a].key, before[b].key));
    }
    assert forall|i: int| 0 <= i < after.len() implies {
        let g = #[trigger] after[i];
        &&& g.key.0 <= dir
        &&& g.key.0 < manifests.len()
        &&& g.blocks@.len() > 0
        &&& g.key.0 < dir ==> g.blocks@ == tile_blocks(manifests, g.key)
        &&& g.key.0 == dir ==> g.blocks@ == refs_in(g.key.0, blocks.take(j + 1), g.key.1)
    } by {
        let old_g = before[i];
        lemma_refs_in_other(old_g.key.0, blocks, j, old_g.key.1);
        if i != at && old_g.key.0 == dir {
            if i < at {
                assert(key_less(before[i].key, before[at].key));
            } else {
                assert(key_less(before[at].key, before[i].key));
            }
        }
    }
    assert forall|d: int, k: int|
        0 <= d < manifests.len() && 0 <= k < manifests[d].blocks@.len() && (d < dir || (d == dir
            && k < j + 1)) implies has_key(
        after,
        (d as usize, (#[trigger] manifests[d].blocks@[k]).macro_tile_id),
    ) by {
        let key = (d as usize, manifests[d].blocks@[k].macro_tile_id);
        if d == dir && k == j {
            assert(after[at].key == key);
        } else {
            assert(has_key(before, key));
            let i = choose|i: int| 0 <= i < before.len() && (#[trigger] before[i]).key == key;
            assert(after[i].key == key);
        }
    }
}

proof fn lemma_group_inserted(
    before: Seq<TileGroup>,
    after: Seq<TileGroup>,
    manifests: Seq<&LabeledBlockManifest>,
    dir: int,
    j: int,
    at: int,
)
    requires
        0 <= dir < manifests.len(),
        dir <= usize::MAX,
        0 <= j < manifests[dir].blocks@.len(),
        groups_cover(before, manifests, dir, j),
        0 <= at <= before.len(),
        after.len() == before.len() + 1,
        after == before.insert(at, after[at]),
        after[at].key == (dir as usize, manifests[dir].blocks@[j].macro_tile_id),
        after[at].blocks@ == seq![(dir as usize, manifests[dir].blocks@[j].meta.id)],
        !has_key(before, after[at].key),
        forall|i: int| 0 <= i < at ==> key_less((#[trigger] before[i]).key, after[at].key),
        forall|i: int| at <= i < before.len() ==> key_less(after[at].key, (#[trigger] before[i]).key),
    ensures
        groups_cover(after, manifests, dir, j + 1),
{
    let blocks = manifests[dir].blocks@;
    let key = after[at].key;
    assert forall|i: int| 0 <= i < after.len() && i != at implies #[trigger] after[i] == before[if i
        < at {
        i
    } else {
        i - 1
    }] by {}
    assert forall|a: int, b: int| 0 <= a < b < after.len() implies key_less(
        (#[trigger] after[a]).key,
        (#[trigger] after[b]).key,
    ) by {
        let pa = if a < at {
            a
        } else {
            a - 1
        };
        let pb = if b < at {
            b
        } else {
            b - 1
        };
        if a != at && b != at {
            assert(key_less(before[pa].key, before[pb].key));
        } else if a == at {
            assert(key_less(key, before[pb].key));
        } else {
            assert(key_less(before[pa].key, key));
        }
    }
    assert(refs_in(key.0, blocks.take(j + 1), key.1) =~= after[at].blocks@) by {
        assert forall|k: int| 0 <= k < blocks.take(j).len() implies (
        #[trigger] blocks.take(j)[k]).macro_tile_id != key.1 by {
            assert(has_key(before, (dir as usize, manifests[dir].blocks@[k].macro_tile_id)));
        }
        lemma_refs_in_absent(key.0, blocks.take(j), key.1);
        lemma_refs_in_other(key.0, blocks, j, key.1);
    }
    assert forall|i: int| 0 <= i < after.len() implies {
        let g = #[trigger] after[i];
        &&& g.key.0 <= dir
        &&& g.key.0 < manifests.len()
        &&& g.blocks@.len() > 0
        &&& g.key.0 < dir ==> g.blocks@ == tile_blocks(manifests, g.key)
        &&& g.key.0 == dir ==> g.blocks@ == refs_in(g.key.0, blocks.take(j + 1), g.key.1)
    } by {
        if i != at {
            let p = if i < at {
                i
            } else {
                i - 1
            };
            let old_g = before[p];
            assert(after[i] == old_g);
            lemma_refs_in_other(old_g.key.0, blocks, j, old_g.key.1);
            if old_g.key.0 == dir && old_g.key.1 == key.1 {
                assert(has_key(before, key));
            }
        }
    }
    assert forall|d: int, k: int|
        0 <= d < manifests.len() && 0 <= k < manifests[d].blocks@.len() && (d < dir || (d == dir
            && k < j + 1)) implies has_key(
        after,
        (d as usize, (#[trigger] manifests[d].blocks@[k]).macro_tile_id),
    ) by {
        let kk = (d as usize, manifests[d].blocks@[k].macro_tile_id);
        if d == dir && k == j {
            assert(after[at].key == kk);
        } else {
            assert(has_key(before, kk));
            let i = choose|i: int| 0 <= i < before.len() && (#[trigger] before[i]).key == kk;
            if i < at {
                assert(after[i].key == kk);
            } else {
                assert(after[i + 1].key == kk);
            }
        }
    }
}

/// The keys of the groups.
pub open spec fn keys_of(groups: Seq<TileGroup>) -> Seq<TileKey> {
    groups.map_values(|g: TileGroup| g.key)
}

/// `keys` lists, strictly ascending, exactly the macro-tiles that hold a block.
pub open spec fn is_tile_list(keys: Seq<TileKey>, manifests: Seq<&LabeledBlockManifest>) -> bool {
    &&& forall|i: int, j: int|
        0 <= i < j < keys.len() ==> key_less(#[trigger] keys[i], #[trigger] keys[j])
    &&& forall|i: int|
        0 <= i < keys.len() ==> (#[trigger] keys[i]).0 < manifests.len() && tile_blocks(
            manifests,
            keys[i],
        ).len() > 0
    &&& forall|d: int, j: int|
        0 <= d < manifests.len() && 0 <= j < manifests[d].blocks@.len() ==> keys.contains(
            (d as usize, (#[trigger] manifests[d].blocks@[j]).macro_tile_id),
        )
}

pub proof fn lemma_grouping_keys(groups: Seq<TileGroup>, manifests: Seq<&LabeledBlockManifest>)
    requires
        is_grouping(groups, manifests),
    ensures
        is_tile_list(keys_of(groups), manifests),
        forall|i: int|
            0 <= i < groups.len() ==> (#[trigger] groups[i]).blocks@ == tile_blocks(
                manifests,
                groups[i].key,
            ),
{
    let keys = keys_of(groups);
    assert forall|i: int, j: int| 0 <= i < j < keys.len() implies key_less(
        #[trigger] keys[i],
        #[trigger] keys[j],
    ) by {
        assert(key_less(groups[i].key, groups[j].key));
    }
    assert forall|i: int| 0 <= i < keys.len() implies (#[trigger] keys[i]).0 < manifests.len()
        && tile_blocks(manifests, keys[i]).len() > 0 by {
        assert(groups[i].key == keys[i]);
    }
    assert forall|d: int, j: int|
        0 <= d < manifests.len() && 0 <= j < manifests[d].blocks@.len() implies keys.contains(
        (d as usize, (#[trigger] manifests[d].blocks@[j]).macro_tile_id),
    ) by {
        let key = (d as usize, manifests[d].blocks@[j].macro_tile_id);
        assert(has_key(groups, key));
        let i = choose|i: int| 0 <= i < groups.len() && (#[trigger] groups[i]).key == key;
        assert(keys[i] == key);
    }
}

// ── Stride selection ────────────────────────────────────────────────────────

/// How many tiles a non-empty selection takes.
pub open spec fn stride_target(share: int) -> int {
    if share < 1 {
        1
    } else {
        share
    }
}

/// The `k`-th of `target` evenly strided positions among `n`.
pub open spec fn stride_position(n: int, target: int, seed: u64, k: int) -> int {
    (seed as usize) as int % (n / target) + k * (n / target)
}

/// Whether position `p` of `n` belongs to the strided selection of `share`
/// tiles.
pub open spec fn stride_picks(n: int, active: bool, share: int, seed: u64, p: int) -> bool {
    active && n > 0 && exists|k: int|
        0 <= k < stride_target(share) && p == #[trigger] stride_position(
            n,
            stride_target(share),
            seed,
            k,
        )
}

/// The strided positions lie in range and ascend, so a selection holds exactly
/// as many tiles as it was asked for, and at least one.
pub proof fn law_stride_takes_its_share(n: int, share: int, seed: u64, j: int, k: int)
    requires
        0 <= share <= n,
        0 < n,
        0 <= j < k < stride_target(share),
    ensures
        0 <= stride_position(n, stride_target(share), seed, j) < stride_position(
            n,
            stride_target(share),
            seed,
            k,
        ) < n,
{
    let target = stride_target(share);
    let stride = n / target;
    assert(stride >= 1) by (nonlinear_arith)
        requires
            stride == n / target,
            1 <= target <= n,
    ;
    lemma_stride_in_range(n, target, seed, j);
    lemma_stride_in_range(n, target, seed, k);
    assert(j * stride < k * stride) by (nonlinear_arith)
        requires
            j < k,
            stride >= 1,
    ;
}

proof fn lemma_stride_in_range(n: int, target: int, seed: u64, k: int)
    requires
        1 <= target <= n,
        0 <= k < target,
    ensures
        n / target >= 1,
        0 <= stride_position(n, target, seed, k) < n,
{
    let stride = n / target;
    assert(stride >= 1 && stride * target <= n) by (nonlinear_arith)
        requires
            stride == n / target,
            1 <= target <= n,
    ;
    let offset = (seed as usize) as int % stride;
    assert(0 <= offset < stride) by (nonlinear_arith)
        requires
            stride >= 1,
            offset == (seed as usize) as int % stride,
    ;
    assert(0 <= offset + k * stride < stride * target) by (nonlinear_arith)
        requires
            0 <= offset < stride,
            0 <= k < target,
            stride >= 1,
    ;
}

/// Selects a deterministic, evenly strided subset of `n` tiles, about `share`
/// of them and at least one; none where the selection is switched off.
pub fn select_stride_subset(n: usize, active: bool, share: usize, seed: u64) -> (flags: Vec<bool>)
    requires
        share <= n,
    ensures
        flags@.len() == n,
        forall|p: int|
            0 <= p < n ==> #[trigger] flags@[p] == stride_picks(
                n as int,
                active,
                share as int,
                seed,
                p,
            ),
{
    let mut flags: Vec<bool> = Vec::new();
    let mut i: usize = 0;
    while i < n
        invariant
            i <= n,
            flags@.len() == i,
            forall|p: int| 0 <= p < i ==> #[trigger] flags@[p] == false,
        decreases n - i,
    {
        flags.push(false);
        i = i + 1;
    }
    if !active || n == 0 {
        return flags;
    }
    let target: usize = if share < 1 {
        1
    } else {
        share
    };
    proof {
        lemma_stride_in_range(n as int, target as int, seed, 0);
    }
    let stride: usize = n / target;
    let mut at: usize = (seed as usize) % stride;
    let mut k: usize = 0;
    while k < target
        invariant
            k <= target,
            1 <= target <= n,
            target == stride_target(share as int),
            stride == n as int / target as int,
            k < target ==> at == stride_position(n as int, target as int, seed, k as int),
            flags@.len() == n,
            forall|p: int|
                0 <= p < n ==> #[trigger] flags@[p] == (exists|m: int|
                    0 <= m < k && p == #[trigger] stride_position(
                        n as int,
                        target as int,
                        seed,
                        m,
                    )),
        decreases target - k,
    {
        proof {
            lemma_stride_in_range(n as int, target as int, seed, k as int);
        }
        let ghost before = flags@;
        flags.set(at, true);
        proof {
            assert forall|p: int| 0 <= p < n implies #[trigger] flags@[p] == (exists|m: int|
                0 <= m < k + 1 && p == #[trigger] stride_position(
                    n as int,
                    target as int,
                    seed,
                    m,
                )) by {
                if p == at {
                    assert(p == stride_position(n as int, target as int, seed, k as int));
                } else {
                    assert(flags@[p] == before[p]);
                    if before[p] {
                        let m = choose|m: int|
                            0 <= m < k && p == #[trigger] stride_position(
                                n as int,
                                target as int,
                                seed,
                                m,
                            );
                        assert(0 <= m < k + 1 && p == stride_position(
                            n as int,
                            target as int,
                            seed,
                            m,
                        ));
                    }
                }
            }
        }
        if k + 1 < target {
            proof {
                lemma_stride_in_range(n as int, target as int, seed, k + 1);
                assert((k + 1) * stride == k * stride + stride) by (nonlinear_arith);
            }
            at = at + stride;
        }
        k = k + 1;
    }
    flags
}

// ── From tile positions to blocks ───────────────────────────────────────────

/// The positions `0..n`.
pub open spec fn all_positions(n: int) -> Seq<usize> {
    Seq::new(n as nat, |i: int| i as usize)
}

/// The blocks of the listed tiles, tile after tile.
pub open spec fn collected(
    manifests: Seq<&LabeledBlockManifest>,
    keys: Seq<TileKey>,
    list: Seq<usize>,
) -> Seq<BlockRef>
    decreases list.len(),
{
    if list.len() == 0 {
        Seq::empty()
    } else {
        collected(manifests, keys, list.drop_last()) + tile_blocks(
            manifests,
            keys[list.last() as int],
        )
    }
}

fn collect_blocks(
    groups: &Vec<TileGroup>,
    list: &Vec<usize>,
    manifests: &[&LabeledBlockManifest],
) -> (r: Vec<BlockRef>)
    requires
        is_grouping(groups@, manifests@),
        positions_ok(list@, groups@.len() as int),
    ensures
        r@ == collected(manifests@, keys_of(groups@), list@),
{
    proof {
        lemma_grouping_keys(groups@, manifests@);
    }
    let ghost keys = keys_of(groups@);
    let mut out: Vec<BlockRef> = Vec::new();
    let mut i: usize = 0;
    assert(list@.take(0) =~= Seq::empty());
    while i < list.len()
        invariant
            i <= list@.len(),
            positions_ok(list@, groups@.len() as int),
            keys == keys_of(groups@),
            forall|k: int|
                0 <= k < groups@.len() ==> (#[trigger] groups@[k]).blocks@ == tile_blocks(
                    manifests@,
                    groups@[k].key,
                ),
            out@ == collected(manifests@, keys, list@.take(i as int)),
        decreases list@.len() - i,
    {
        let g: usize = list[i];
        assert(g < groups@.len());
        let ghost start = out@;
        let blocks = &groups[g].blocks;
        let mut j: usize = 0;
        assert(start + blocks@.take(0) =~= start);
        while j < blocks.len()
            invariant
                j <= blocks@.len(),
                out@ == start + blocks@.take(j as int),
            decreases blocks@.len() - j,
        {
            out.push(blocks[j]);
            assert(start + blocks@.take(j + 1) =~= (start + blocks@.take(j as int)).push(
                blocks@[j as int],
            ));
            j = j + 1;
        }
        proof {
            assert(blocks@.take(j as int) =~= blocks@);
            assert(list@.take(i + 1).drop_last() =~= list@.take(i as int));
            assert(list@.take(i + 1).last() == g);
            assert(keys[g as int] == groups@[g as int].key);
        }
        i = i + 1;
    }
    assert(list@.take(i as int) =~= list@);
    out
}

// ── Non-stratified path ─────────────────────────────────────────────────────

/// The number of positions before `p` that the selection leaves.
pub open spec fn left_before(n: int, active: bool, share: int, seed: u64, p: int) -> int
    decreases p,
{
    if p <= 0 {
        0
    } else {
        left_before(n, active, share, seed, p - 1) + if stride_picks(n, active, share, seed, p - 1) {
            0int
        } else {
            1int
        }
    }
}

/// What a stride split of `n` tiles asks for: the validation tiles are picked
/// among all tiles, the test tiles among those that are left. Both shares are
/// shares of all tiles.
pub ghost struct StrideSplit {
    pub n: int,
    pub val_active: bool,
    pub val_share: int,
    pub test_active: bool,
    pub test_share: int,
    pub seed: u64,
}

impl StrideSplit {
    /// The tiles left for training and test.
    pub open spec fn left(self) -> int {
        left_before(self.n, self.val_active, self.val_share, self.seed, self.n)
    }

    /// The test share, as far as the tiles that are left reach.
    pub open spec fn test_limit(self) -> int {
        if self.test_share < self.left() {
            self.test_share
        } else {
            self.left()
        }
    }

    /// The subset of the tile at `p`: 0 train, 1 validation, 2 test.
    pub open spec fn role(self, p: int) -> int {
        if stride_picks(self.n, self.val_active, self.val_share, self.seed, p) {
            1
        } else if stride_picks(
            self.left(),
            self.test_active,
            self.test_limit(),
            self.seed,
            left_before(self.n, self.val_active, self.val_share, self.seed, p),
        ) {
            2
        } else {
            0
        }
    }

    /// The positions before `upto` whose tile is in subset `r`, ascending.
    pub open spec fn list(self, r: int, upto: int) -> Seq<usize>
        decreases upto,
    {
        if upto <= 0 {
            Seq::empty()
        } else if self.role(upto - 1) == r {
            self.list(r, upto - 1).push((upto - 1) as usize)
        } else {
            self.list(r, upto - 1)
        }
    }

    pub open spec fn lists(self) -> Seq<Seq<usize>> {
        seq![self.list(0, self.n), self.list(1, self.n), self.list(2, self.n)]
    }
}

proof fn lemma_left_monotone(n: int, active: bool, share: int, seed: u64, p: int, q: int)
    requires
        0 <= p < q,
        !stride_picks(n, active, share, seed, p),
    ensures
        left_before(n, active, share, seed, p) < left_before(n, active, share, seed, q),
    decreases q,
{
    if q > p + 1 {
        lemma_left_monotone(n, active, share, seed, p, q - 1);
    }
}

/// Splits `n` tiles by stride selection. Both shares are shares of all `n`
/// tiles; the test set takes no more than validation leaves.
pub fn stride_lists(
    n: usize,
    val_active: bool,
    val_share: usize,
    test_active: bool,
    test_share: usize,
    seed: u64,
) -> (lists: Vec<Vec<usize>>)
    requires
        val_share <= n,
    ensures
        lists@.len() == 3,
        crate::preprocessing::split_assign::lists(lists@) == (StrideSplit {
            n: n as int,
            val_active,
            val_share: val_share as int,
            test_active,
            test_share: test_share as int,
            seed,
        }).lists(),
{
    let val_flags = select_stride_subset(n, val_active, val_share, seed);
    let mut left: usize = 0;
    let mut p: usize = 0;
    while p < n
        invariant
            p <= n,
            left <= p,
            val_flags@.len() == n,
            forall|k: int|
                0 <= k < n ==> #[trigger] val_flags@[k] == stride_picks(
                    n as int,
                    val_active,
                    val_share as int,
                    seed,
                    k,
                ),
            left == left_before(n as int, val_active, val_share as int, seed, p as int),
        decreases n - p,
    {
        if !val_flags[p] {
            left = left + 1;
        }
        p = p + 1;
    }
    let limit: usize = if test_share < left {
        test_share
    } else {
        left
    };
    let test_flags = select_stride_subset(left, test_active, limit, seed);
    let ghost split = StrideSplit {
        n: n as int,
        val_active,
        val_share: val_share as int,
        test_active,
        test_share: test_share as int,
        seed,
    };
    let mut train: Vec<usize> = Vec::new();
    let mut val: Vec<usize> = Vec::new();
    let mut test: Vec<usize> = Vec::new();
    let mut rank: usize = 0;
    p = 0;
    while p < n
        invariant
            p <= n,
            rank <= p,
            val_flags@.len() == n,
            test_flags@.len() == left,
            left == split.left(),
            limit == split.test_limit(),
            split == (StrideSplit {
                n: n as int,
                val_active,
                val_share: val_share as int,
                test_active,
                test_share: test_share as int,
                seed,
            }),
            forall|k: int|
                0 <= k < n ==> #[trigger] val_flags@[k] == stride_picks(
                    n as int,
                    val_active,
                    val_share as int,
                    seed,
                    k,
                ),
            forall|k: int|
                0 <= k < left ==> #[trigger] test_flags@[k] == stride_picks(
                    left as int,
                    test_active,
                    limit as int,
                    seed,
                    k,
                ),
            rank == left_before(n as int, val_active, val_share as int, seed, p as int),
            train@ == split.list(0, p as int),
            val@ == split.list(1, p as int),
            test@ == split.list(2, p as int),
        decreases n - p,
    {
        if val_flags[p] {
            val.push(p);
        } else {
            proof {
                lemma_left_monotone(
                    n as int,
                    val_active,
                    val_share as int,
                    seed,
                    p as int,
                    n as int,
                );
            }
            if test_flags[rank] {
                test.push(p);
            } else {
                train.push(p);
            }
            rank = rank + 1;
        }
        p = p + 1;
    }
    let lists = vec![train, val, test];
    assert(crate::preprocessing::split_assign::lists(lists@) =~= split.lists());
    lists
}

proof fn lemma_picks_counted(n: int, share: int, seed: u64, p: int)
    requires
        0 < n,
        0 <= share <= n,
        0 <= p <= n,
    ensures
        ({
            let target = stride_target(share);
            let c = p - left_before(n, true, share, seed, p);
            &&& 0 <= c <= target
            &&& c > 0 ==> stride_position(n, target, seed, c - 1) < p
            &&& c < target ==> stride_position(n, target, seed, c) >= p
            &&& p == n ==> c == target
        }),
    decreases p,
{
    let target = stride_target(share);
    if p > 0 {
        lemma_picks_counted(n, share, seed, p - 1);
        let c = p - 1 - left_before(n, true, share, seed, p - 1);
        if stride_picks(n, true, share, seed, p - 1) {
            let k = choose|k: int|
                0 <= k < target && p - 1 == #[trigger] stride_position(n, target, seed, k);
            if k < c - 1 {
                law_stride_takes_its_share(n, share, seed, k, c - 1);
            }
            if c < k {
                law_stride_takes_its_share(n, share, seed, c, k);
            }
            assert(k == c);
            if c + 1 < target {
                law_stride_takes_its_share(n, share, seed, c, c + 1);
            }
        } else if c < target {
            assert(stride_position(n, target, seed, c) != p - 1);
        }
    } else {
        lemma_stride_in_range(n, target, seed, 0);
    }
    let c = p - left_before(n, true, share, seed, p);
    if p == n && c < target {
        lemma_stride_in_range(n, target, seed, c);
    }
}

proof fn lemma_list_sizes(split: StrideSplit, upto: int)
    requires
        0 <= upto,
    ensures
        ({
            let rank = left_before(
                split.n,
                split.val_active,
                split.val_share,
                split.seed,
                upto,
            );
            let kept = left_before(
                split.left(),
                split.test_active,
                split.test_limit(),
                split.seed,
                rank,
            );
            &&& 0 <= kept <= rank <= upto
            &&& split.list(0, upto).len() == kept
            &&& split.list(1, upto).len() == upto - rank
            &&& split.list(2, upto).len() == rank - kept
        }),
    decreases upto,
{
    if upto > 0 {
        lemma_list_sizes(split, upto - 1);
    }
}

/// A selection that is switched off picks nothing.
proof fn lemma_none_picked(n: int, active: bool, share: int, seed: u64, p: int)
    requires
        !active || n <= 0,
        0 <= p,
    ensures
        left_before(n, active, share, seed, p) == p,
    decreases p,
{
    if p > 0 {
        lemma_none_picked(n, active, share, seed, p - 1);
    }
}

/// Validation and test get the shares of all tiles that they ask for, and at
/// least one tile each; test gets no more than validation leaves, and train
/// gets the rest.
pub proof fn law_stride_split_sizes(split: StrideSplit)
    requires
        0 < split.n,
        0 <= split.val_share <= split.n,
        0 <= split.test_share,
    ensures
        ({
            let val = if split.val_active {
                stride_target(split.val_share)
            } else {
                0
            };
            let left = split.n - val;
            let wanted = stride_target(split.test_share);
            let test = if !split.test_active {
                0
            } else if wanted < left {
                wanted
            } else {
                left
            };
            &&& split.lists()[1].len() == val
            &&& split.lists()[2].len() == test
            &&& split.lists()[0].len() == left - test
        }),
{
    let n = split.n;
    lemma_list_sizes(split, n);
    if split.val_active {
        lemma_picks_counted(n, split.val_share, split.seed, n);
    } else {
        lemma_none_picked(n, false, split.val_share, split.seed, n);
    }
    let left = split.left();
    if split.test_active && left > 0 {
        lemma_picks_counted(left, split.test_limit(), split.seed, left);
    } else {
        lemma_none_picked(left, split.test_active, split.test_limit(), split.seed, left);
    }
}

proof fn lemma_list_counts(split: StrideSplit, upto: int, r: int)
    requires
        0 <= upto <= usize::MAX,
    ensures
        split.list(0, upto).to_multiset().add(split.list(1, upto).to_multiset()).add(
            split.list(2, upto).to_multiset(),
        ) == all_positions(upto).to_multiset(),
        positions_ok(split.list(r, upto), upto),
    decreases upto,
{
    broadcast use vstd::seq_lib::group_to_multiset_ensures;

    if upto > 0 {
        lemma_list_counts(split, upto - 1, r);
        let x = (upto - 1) as usize;
        assert(all_positions(upto) =~= all_positions(upto - 1).push(x));
        let role = split.role(upto - 1);
        assert(split.list(0, upto).to_multiset().add(split.list(1, upto).to_multiset()).add(
            split.list(2, upto).to_multiset(),
        ) =~= all_positions(upto).to_multiset());
    } else {
        assert(split.list(0, upto).to_multiset().add(split.list(1, upto).to_multiset()).add(
            split.list(2, upto).to_multiset(),
        ) =~= all_positions(upto).to_multiset());
    }
}

// ── Compatibility of the inputs ─────────────────────────────────────────────

/// The settings on which manifests must agree before they are merged.
#[derive(Debug, Clone, Copy, PartialEq, Eq, Structural)]
pub enum ManifestField {
    LabelMap,
    BlockSize,
    TargetPoints,
    MinDensity,
    SearchRadius,
    MinNeighbors,
    CrsEpsg,
}

impl ManifestField {
    /// The name of the setting in the manifest.
    pub open spec fn name(self) -> Seq<char> {
        match self {
            ManifestField::LabelMap => "label_map"@,
            ManifestField::BlockSize => "block_size"@,
            ManifestField::TargetPoints => "target_points"@,
            ManifestField::MinDensity => "min_density"@,
            ManifestField::SearchRadius => "search_radius"@,
            ManifestField::MinNeighbors => "min_neighbors"@,
            ManifestField::CrsEpsg => "crs_epsg"@,
        }
    }

    pub fn name_text(self) -> (r: &'static str)
        ensures
            r@ == self.name(),
    {
        match self {
            ManifestField::LabelMap => "label_map",
            ManifestField::BlockSize => "block_size",
            ManifestField::TargetPoints => "target_points",
            ManifestField::MinDensity => "min_density",
            ManifestField::SearchRadius => "search_radius",
            ManifestField::MinNeighbors => "min_neighbors",
            ManifestField::CrsEpsg => "crs_epsg",
        }
    }
}

/// Which of a manifest's real-valued settings differ from those of the first
/// manifest by more than the tolerance of a round trip.
#[derive(Debug, Clone, Copy, PartialEq, Eq, Structural)]
pub struct RealDiffers {
    pub block_size: bool,
    pub min_density: bool,
    pub search_radius: bool,
}

/// The first setting on which a manifest disagrees with the first manifest.
pub open spec fn mismatch(
    m: &LabeledBlockManifest,
    first: &LabeledBlockManifest,
    differs: RealDiffers,
) -> Option<ManifestField> {
    if m.label_map@ != first.label_map@ {
        Some(ManifestField::LabelMap)
    } else if differs.block_size {
        Some(ManifestField::BlockSize)
    } else if m.target_points != first.target_points {
        Some(ManifestField::TargetPoints)
    } else if differs.min_density {
        Some(ManifestField::MinDensity)
    } else if differs.search_radius {
        Some(ManifestField::SearchRadius)
    } else if m.min_neighbors != first.min_neighbors {
        Some(ManifestField::MinNeighbors)
    } else if m.crs_epsg != first.crs_epsg {
        Some(ManifestField::CrsEpsg)
    } else {
        None
    }
}

/// The first `k` manifests agree with the first one.
pub open spec fn compatible(
    manifests: Seq<&LabeledBlockManifest>,
    differs: Seq<RealDiffers>,
    k: int,
) -> bool {
    forall|i: int|
        1 <= i < k ==> mismatch(#[trigger] manifests[i], manifests[0], differs[i]) is None
}

/// The number of classes that a label map names; 8 for an empty one.
pub open spec fn class_number(label_map: Map<Seq<char>, u8>) -> nat {
    if label_map.values().len() == 0 {
        8
    } else {
        label_map.values().len()
    }
}

spec fn first_values(pairs: Seq<(Seq<char>, u8)>, k: int) -> Set<u8>
    decreases k,
{
    if k <= 0 {
        Set::empty()
    } else {
        first_values(pairs, k - 1).insert(pairs[k - 1].1)
    }
}

proof fn lemma_first_values(pairs: Seq<(Seq<char>, u8)>, k: int, v: u8)
    requires
        0 <= k <= pairs.len(),
    ensures
        first_values(pairs, k).finite(),
        first_values(pairs, k).contains(v) <==> exists|i: int|
            0 <= i < k && (#[trigger] pairs[i]).1 == v,
    decreases k,
{
    if k > 0 {
        lemma_first_values(pairs, k - 1, v);
        if pairs[k - 1].1 == v {
            assert(exists|i: int| 0 <= i < k && (#[trigger] pairs[i]).1 == v);
        }
    }
}

/// Derives the model class count from a label map: how many different indices
/// it names, 8 where it is empty.
pub fn derive_n_classes(label_map: &TextMap<u8>) -> (r: usize)
    ensures
        r == class_number(label_map@),
{
    let ghost pairs = label_map.pairs();
    let n: usize = label_map.len();
    let mut seen: Vec<bool> = Vec::new();
    let mut i: usize = 0;
    while i < 256
        invariant
            i <= 256,
            seen@.len() == i,
            forall|k: int| 0 <= k < i ==> (#[trigger] seen@[k]) == false,
        decreases 256 - i,
    {
        seen.push(false);
        i = i + 1;
    }
    let mut count: usize = 0;
    let mut e: usize = 0;
    while e < n
        invariant
            e <= n,
            n == pairs.len(),
            pairs == label_map.pairs(),
            seen@.len() == 256,
            forall|v: u8| #[trigger] seen@[v as int] == first_values(pairs, e as int).contains(v),
            first_values(pairs, e as int).finite(),
            count == first_values(pairs, e as int).len(),
            count <= e,
        decreases n - e,
    {
        let v: u8 = label_map.value_at(e);
        if !seen[v as usize] {
            count = count + 1;
        }
        seen.set(v as usize, true);
        e = e + 1;
    }
    proof {
        let s = first_values(pairs, n as int);
        assert forall|v: u8| s.contains(v) <==> label_map@.values().contains(v) by {
            lemma_first_values(pairs, n as int, v);
            if s.contains(v) {
                let k = choose|k: int| 0 <= k < n && (#[trigger] pairs[k]).1 == v;
                assert(label_map@.dom().contains(pairs[k].0));
                assert(label_map@[pairs[k].0] == v);
                assert(label_map@.contains_value(v));
            }
            if label_map@.values().contains(v) {
                let key = choose|key: Seq<char>| #[trigger]
                    label_map@.dom().contains(key) && label_map@[key] == v;
                let k = choose|k: int| 0 <= k < n && (#[trigger] pairs[k]).0 == key;
                assert(pairs[k].1 == v);
            }
        }
        assert(s =~= label_map@.values());
    }
    if count == 0 {
        8
    } else {
        count
    }
}

/// An optional code as messages write it.
pub open spec fn shown_code(code: Option<u32>) -> Seq<char> {
    match code {
        Some(n) => "Some("@ + decimal(n as nat) + ")"@,
        None => "None"@,
    }
}

fn show_code(code: Option<u32>) -> (r: String)
    ensures
        r@ == shown_code(code),
{
    match code {
        Some(n) => concat3("Some(", decimal_text(n as u64).as_str(), ")"),
        None => "None".to_owned(),
    }
}

/// What a manifest has for a setting, as messages write it.
pub open spec fn shown_setting(m: &LabeledBlockManifest, field: ManifestField, w: ShowModel) -> Seq<
    char,
> {
    match field {
        ManifestField::LabelMap => Seq::empty(),
        ManifestField::BlockSize => w(m.block_size),
        ManifestField::TargetPoints => decimal(m.target_points as nat),
        ManifestField::MinDensity => w(m.min_density),
        ManifestField::SearchRadius => w(m.search_radius),
        ManifestField::MinNeighbors => decimal(m.min_neighbors as nat),
        ManifestField::CrsEpsg => shown_code(m.crs_epsg),
    }
}

fn show_setting<S: Fn(Real64) -> String>(
    m: &LabeledBlockManifest,
    field: ManifestField,
    show: &S,
) -> (r: String)
    requires
        forall|x: Real64| #[trigger] call_requires(*show, (x,)),
    ensures
        forall|w: ShowModel| #[trigger] shows(*show, w) ==> r@ == shown_setting(m, field, w),
{
    match field {
        ManifestField::LabelMap => String::new(),
        ManifestField::BlockSize => show(m.block_size),
        ManifestField::TargetPoints => decimal_text(m.target_points as u64),
        ManifestField::MinDensity => show(m.min_density),
        ManifestField::SearchRadius => show(m.search_radius),
        ManifestField::MinNeighbors => decimal_text(m.min_neighbors as u64),
        ManifestField::CrsEpsg => show_code(m.crs_epsg),
    }
}

/// The message on input manifest `index`, which disagrees with input manifest 0
/// on a setting.
pub open spec fn mismatch_message(
    index: nat,
    field: ManifestField,
    m: &LabeledBlockManifest,
    first: &LabeledBlockManifest,
    w: ShowModel,
) -> Seq<char> {
    let head = "input manifest "@ + decimal(index) + "'s "@ + field.name();
    if field is LabelMap {
        head
            + " does not match input manifest 0's label_map — all --input directories must have been preprocessed with the same label mapping"@
    } else {
        head + " ("@ + shown_setting(m, field, w) + ") does not match input manifest 0's "@
            + field.name() + " ("@ + shown_setting(first, field, w) + ")"@
    }
}

fn mismatch_error<S: Fn(Real64) -> String>(
    index: usize,
    field: ManifestField,
    m: &LabeledBlockManifest,
    first: &LabeledBlockManifest,
    show: &S,
) -> (e: ClassifierError)
    requires
        forall|x: Real64| #[trigger] call_requires(*show, (x,)),
    ensures
        e is Pipeline,
        forall|w: ShowModel| #[trigger]
            shows(*show, w) ==> e.text() == pipeline_text(
                mismatch_message(index as nat, field, m, first, w),
            ),
{
    let mut text = concat3("input manifest ", decimal_text(index as u64).as_str(), "'s ");
    text.append(field.name_text());
    match field {
        ManifestField::LabelMap => {
            text.append(
                " does not match input manifest 0's label_map — all --input directories must have been preprocessed with the same label mapping",
            );
        },
        _ => {
            text.append(" (");
            text.append(show_setting(m, field, show).as_str());
            text.append(") does not match input manifest 0's ");
            text.append(field.name_text());
            text.append(" (");
            text.append(show_setting(first, field, show).as_str());
            text.append(")");
        },
    }
    ClassifierError::Pipeline(text)
}

/// Manifest `index` is the first that disagrees with the first manifest, and
/// `e` says on which setting.
pub open spec fn refused_for<S: Fn(Real64) -> String>(
    e: ClassifierError,
    manifests: Seq<&LabeledBlockManifest>,
    differs: Seq<RealDiffers>,
    show: S,
    index: int,
) -> bool {
    &&& 1 <= index < manifests.len()
    &&& compatible(manifests, differs, index)
    &&& mismatch(manifests[index], manifests[0], differs[index]) is Some
    &&& forall|w: ShowModel| #[trigger]
        shows(show, w) ==> e.text() == pipeline_text(
            mismatch_message(
                index as nat,
                mismatch(manifests[index], manifests[0], differs[index])->0,
                manifests[index],
                manifests[0],
                w,
            ),
        )
}

/// Validates that all manifests were made with the same settings, and gives
/// their class count.
///
/// Settings that say how the data was made must agree; where it came from
/// (`source`, `spatial_tile_grid`) may differ. `show` writes the numbers of the
/// message.
pub fn validate_manifest_compatibility<S: Fn(Real64) -> String>(
    manifests: &[&LabeledBlockManifest],
    differs: &Vec<RealDiffers>,
    show: S,
) -> (r: Result<usize, ClassifierError>)
    requires
        differs@.len() == manifests@.len(),
        forall|x: Real64| #[trigger] call_requires(show, (x,)),
    ensures
        match r {
            Ok(n) => {
                &&& manifests@.len() > 0
                &&& compatible(manifests@, differs@, manifests@.len() as int)
                &&& n == class_number(manifests@[0].label_map@)
            },
            Err(e) => {
                &&& e is Pipeline
                &&& if manifests@.len() == 0 {
                    e.text() == pipeline_text("at least one input manifest is required"@)
                } else {
                    exists|index: int| #[trigger]
                        refused_for(e, manifests@, differs@, show, index)
                }
            },
        },
{
    if manifests.len() == 0 {
        return Err(
            ClassifierError::Pipeline("at least one input manifest is required".to_owned()),
        );
    }
    let first = manifests[0];
    let n_classes: usize = derive_n_classes(&first.label_map);
    let mut i: usize = 1;
    while i < manifests.len()
        invariant
            1 <= i <= manifests@.len(),
            differs@.len() == manifests@.len(),
            first == manifests@[0],
            compatible(manifests@, differs@, i as int),
            forall|x: Real64| #[trigger] call_requires(show, (x,)),
        decreases manifests@.len() - i,
    {
        let m = manifests[i];
        let d = differs[i];
        let same_crs: bool = match (m.crs_epsg, first.crs_epsg) {
            (Some(a), Some(b)) => a == b,
            (None, None) => true,
            _ => false,
        };
        let field: Option<ManifestField> = if !same_map(&m.label_map, &first.label_map) {
            Some(ManifestField::LabelMap)
        } else if d.block_size {
            Some(ManifestField::BlockSize)
        } else if m.target_points != first.target_points {
            Some(ManifestField::TargetPoints)
        } else if d.min_density {
            Some(ManifestField::MinDensity)
        } else if d.search_radius {
            Some(ManifestField::SearchRadius)
        } else if m.min_neighbors != first.min_neighbors {
            Some(ManifestField::MinNeighbors)
        } else if !same_crs {
            Some(ManifestField::CrsEpsg)
        } else {
            None
        };
        assert(field == mismatch(manifests@[i as int], manifests@[0], differs@[i as int]));
        match field {
            Some(field) => {
                let e = mismatch_error(i, field, m, first, &show);
                assert(refused_for(e, manifests@, differs@, show, i as int));
                return Err(e);
            },
            None => {},
        }
        i = i + 1;
    }
    Ok(n_classes)
}

// ── The split ───────────────────────────────────────────────────────────────

/// Local block IDs assigned to each of the three subsets, for a single
/// manifest.
#[derive(Debug)]
pub struct ThreeWaySplit {
    pub train_ids: Vec<u64>,
    pub val_ids: Vec<u64>,
    pub test_ids: Vec<u64>,
}

/// Blocks assigned to each of the three subsets, over one or more merged
/// manifests.
#[derive(Debug)]
pub struct MultiThreeWaySplit {
    pub train: Vec<BlockRef>,
    pub val: Vec<BlockRef>,
    pub test: Vec<BlockRef>,
}

/// The requested fractions, with what follows from them by floating-point
/// arithmetic.
#[derive(Debug)]
pub struct SplitRequest {
    pub val_split: Real64,
    pub test_split: Real64,
    /// Whether `val_split + test_split >= 1.0`.
    pub sum_reaches_one: bool,
    /// Whether `1.0 - val_split - test_split > 0.0`.
    pub train_active: bool,
    /// Entry `n` is the rounded share of `n` tiles that train asks for.
    pub train_shares: Vec<usize>,
    /// Entry `n` is the rounded share of `n` tiles that validation asks for.
    pub val_shares: Vec<usize>,
    /// Entry `n` is the rounded share of `n` tiles that test asks for.
    pub test_shares: Vec<usize>,
    /// Seed for deterministic tie-breaking.
    pub seed: u64,
}

/// Entry `n` is a share of `n` tiles, for every `n` up to `max`.
pub open spec fn shares_ok(shares: Seq<usize>, max: int) -> bool {
    &&& max < shares.len()
    &&& forall|n: int| 0 <= n <= max ==> #[trigger] shares[n] <= n
}

/// At least 0.0 and less than 1.0.
pub open spec fn in_unit(x: Real64) -> bool {
    (Real64 { bits: 0 }).at_most(x) && x.less(Real64 { bits: ONE })
}

impl SplitRequest {
    /// Which subsets are to get tiles: train, validation, test.
    pub open spec fn active(self) -> Seq<bool> {
        seq![self.train_active, self.val_split.positive(), self.test_split.positive()]
    }

    /// How many of `n` tiles each subset should get.
    pub open spec fn targets(self, n: int) -> Seq<i64> {
        seq![
            target(self.train_active, self.train_shares@[n]),
            target(self.val_split.positive(), self.val_shares@[n]),
            target(self.test_split.positive(), self.test_shares@[n]),
        ]
    }

    /// What stride selection asks of `n` tiles.
    pub open spec fn strides(self, n: int) -> StrideSplit {
        StrideSplit {
            n,
            val_active: self.val_split.positive(),
            val_share: self.val_shares@[n] as int,
            test_active: self.test_split.positive(),
            test_share: self.test_shares@[n] as int,
            seed: self.seed,
        }
    }

    pub open spec fn tables_ok(self, max: int) -> bool {
        &&& shares_ok(self.train_shares@, max)
        &&& shares_ok(self.val_shares@, max)
        &&& shares_ok(self.test_shares@, max)
    }

    /// The message of the first condition that the fractions break.
    pub open spec fn rejected(self) -> Option<Seq<char>> {
        if !in_unit(self.val_split) {
            Some("val_split must be in the range [0.0, 1.0) and finite"@)
        } else if !in_unit(self.test_split) {
            Some("test_split must be in the range [0.0, 1.0) and finite"@)
        } else if self.sum_reaches_one {
            Some(
                "val_split + test_split must be < 1.0 (the training set would otherwise be empty)"@,
            )
        } else {
            None
        }
    }
}

/// A share as a tile count; zero where the subset is switched off.
pub open spec fn target(active: bool, share: usize) -> i64 {
    if !active {
        0
    } else if share > i64::MAX {
        i64::MAX
    } else {
        share as i64
    }
}

fn target_of(active: bool, share: usize) -> (r: i64)
    ensures
        r == target(active, share),
{
    if !active {
        0
    } else if share as u64 > 0x7FFF_FFFF_FFFF_FFFF {
        0x7FFF_FFFF_FFFF_FFFF
    } else {
        share as i64
    }
}

/// What a placement costs, given also the points of each class over all tiles.
pub type GlobalPlacementCost = spec_fn(Seq<u64>, int, u64, Seq<u64>) -> u64;

/// What a move costs, given also the points of each class over all tiles.
pub type GlobalMoveCost = spec_fn(Seq<u64>, u64, Seq<u64>, u64, Seq<u64>) -> u64;

/// The three models answer for the caller's three functions.
pub open spec fn models<
    F: Fn(&Vec<u64>, usize, u64, &Vec<u64>) -> u64,
    M: Fn(&Vec<u64>, u64, &Vec<u64>, u64, &Vec<u64>) -> u64,
    G: Fn(u64, u64) -> CostOrder,
>(
    cost: F,
    move_cost: M,
    ranking: G,
    p: GlobalPlacementCost,
    m: GlobalMoveCost,
    r: CostRanking,
) -> bool {
    &&& forall|g: &Vec<u64>, s: usize, total: u64, counts: &Vec<u64>, x: u64| #[trigger]
        call_ensures(cost, (g, s, total, counts), x) ==> x == p(g@, s as int, total, counts@)
    &&& forall|g: &Vec<u64>, dt: u64, dc: &Vec<u64>, rt: u64, rc: &Vec<u64>, x: u64| #[trigger]
        call_ensures(move_cost, (g, dt, dc, rt, rc), x) ==> x == m(g@, dt, dc@, rt, rc@)
    &&& forall|a: u64, b: u64, x: CostOrder| #[trigger]
        call_ensures(ranking, (a, b), x) ==> x == r(a, b)
}

pub open spec fn totals_of(tiles: Seq<TileInfo>) -> Seq<u64> {
    tiles.map_values(|t: TileInfo| t.total)
}

/// The order in which tiles are placed: shuffled to break ties, then largest
/// first.
pub open spec fn placement_order(tiles: Seq<TileInfo>, seed: u64) -> Seq<usize> {
    sorted_desc(shuffled(all_positions(tiles.len() as int), seed), totals_of(tiles))
}

/// The tile positions of the three subsets after greedy placement and
/// rebalancing.
pub open spec fn stratified_lists(
    p: GlobalPlacementCost,
    m: GlobalMoveCost,
    r: CostRanking,
    tiles: Seq<TileInfo>,
    global: Seq<u64>,
    n_classes: int,
    active: Seq<bool>,
    targets: Seq<i64>,
    seed: u64,
) -> Seq<Seq<usize>> {
    let placed = greedy(
        |s: int, total: u64, counts: Seq<u64>| p(global, s, total, counts),
        tiles,
        n_classes,
        active,
        placement_order(tiles, seed),
    );
    rebalanced(
        |dt: u64, dc: Seq<u64>, rt: u64, rc: Seq<u64>| m(global, dt, dc, rt, rc),
        r,
        tiles,
        n_classes,
        active,
        targets,
        placed,
        tiles.len() as int + 1,
    )
}

/// `l` is what class-balanced assignment makes of the tiles, whatever the
/// caller's cost functions answer; exactly so where they follow a model.
pub open spec fn stratified_outcome<
    F: Fn(&Vec<u64>, usize, u64, &Vec<u64>) -> u64,
    M: Fn(&Vec<u64>, u64, &Vec<u64>, u64, &Vec<u64>) -> u64,
    G: Fn(u64, u64) -> CostOrder,
>(
    cost: F,
    move_cost: M,
    ranking: G,
    l: Seq<Seq<usize>>,
    manifests: Seq<&LabeledBlockManifest>,
    request: SplitRequest,
    keys: Seq<TileKey>,
    tiles: Seq<TileInfo>,
    global: Seq<u64>,
) -> bool {
    let n_classes = class_number(manifests[0].label_map@) as int;
    let n = keys.len() as int;
    let active = request.active();
    let targets = request.targets(n);
    &&& is_tile_stats(tiles, manifests, n_classes, keys)
    &&& global.len() == n_classes
    &&& forall|c: int|
        0 <= c < n_classes ==> (#[trigger] global[c]) == global_points(
            manifests,
            n_classes,
            c,
            manifests.len() as int,
        )
    &&& forall|s: int| 1 <= s < 3 && !active[s] ==> (#[trigger] l[s]).len() == 0
    &&& request.train_active && adds_up(active, targets, n) ==> on_target(active, targets, l)
    &&& forall|p: GlobalPlacementCost, m: GlobalMoveCost, r: CostRanking| #[trigger]
        models(cost, move_cost, ranking, p, m, r) ==> l == stratified_lists(
            p,
            m,
            r,
            tiles,
            global,
            n_classes,
            active,
            targets,
            request.seed,
        )
}

/// The targets of the active subsets are `n` together, give or take one.
pub open spec fn adds_up(active: Seq<bool>, targets: Seq<i64>, n: int) -> bool {
    let total = (if active[0] {
        targets[0] as int
    } else {
        0
    }) + (if active[1] {
        targets[1] as int
    } else {
        0
    }) + (if active[2] {
        targets[2] as int
    } else {
        0
    });
    -1 <= n - total <= 1
}

/// Pure spatial stride selection.
pub open spec fn stride_outcome(
    l: Seq<Seq<usize>>,
    request: SplitRequest,
    n: int,
) -> bool {
    l == request.strides(n).lists()
}

/// The blocks of the three subsets are those of the listed tiles, and every
/// tile is listed exactly once.
pub open spec fn is_split(
    split: MultiThreeWaySplit,
    manifests: Seq<&LabeledBlockManifest>,
    keys: Seq<TileKey>,
    l: Seq<Seq<usize>>,
) -> bool {
    &&& is_tile_list(keys, manifests)
    &&& l.len() == 3
    &&& all_listed(l) == all_positions(keys.len() as int).to_multiset()
    &&& split.train@ == collected(manifests, keys, l[0])
    &&& split.val@ == collected(manifests, keys, l[1])
    &&& split.test@ == collected(manifests, keys, l[2])
}

fn positions(n: usize) -> (r: Vec<usize>)
    ensures
        r@ == all_positions(n as int),
{
    let mut out: Vec<usize> = Vec::new();
    let mut i: usize = 0;
    while i < n
        invariant
            i <= n,
            out@ == all_positions(i as int),
        decreases n - i,
    {
        out.push(i);
        assert(out@ =~= all_positions(i + 1));
        i = i + 1;
    }
    out
}

fn tile_totals(tiles: &Vec<TileInfo>) -> (r: Vec<u64>)
    ensures
        r@ == totals_of(tiles@),
{
    let mut out: Vec<u64> = Vec::new();
    let mut i: usize = 0;
    while i < tiles.len()
        invariant
            i <= tiles@.len(),
            out@ == totals_of(tiles@.take(i as int)),
        decreases tiles@.len() - i,
    {
        out.push(tiles[i].total);
        assert(out@ =~= totals_of(tiles@.take(i + 1)));
        i = i + 1;
    }
    assert(tiles@.take(i as int) =~= tiles@);
    out
}

pub proof fn lemma_positions_of_multiset(a: Seq<usize>, b: Seq<usize>, n: int)
    requires
        a.to_multiset() == b.to_multiset(),
        positions_ok(b, n),
    ensures
        positions_ok(a, n),
{
    broadcast use vstd::seq_lib::group_to_multiset_ensures;

    assert forall|k: int| 0 <= k < a.len() implies (#[trigger] a[k]) < n by {
        assert(a.contains(a[k]));
        assert(a.to_multiset().count(a[k]) > 0);
        assert(b.to_multiset().count(a[k]) > 0);
        assert(b.contains(a[k]));
        let j = choose|j: int| 0 <= j < b.len() && b[j] == a[k];
        assert(b[j] < n);
    }
}

/// The order in which tiles are placed.
fn order_tiles(tiles: &Vec<TileInfo>, seed: u64) -> (r: Vec<usize>)
    ensures
        r@ == placement_order(tiles@, seed),
        r@.to_multiset() == all_positions(tiles@.len() as int).to_multiset(),
        positions_ok(r@, tiles@.len() as int),
        r@.len() == tiles@.len(),
{
    let mut order = positions(tiles.len());
    let totals = tile_totals(tiles);
    let ghost all = all_positions(tiles@.len() as int);
    seeded_shuffle(&mut order, seed);
    proof {
        law_shuffle_permutes(all, seed);
        lemma_positions_of_multiset(order@, all, tiles@.len() as int);
        law_sort_is_stable(order@, totals@, 0);
    }
    let r = sort_desc(&order, &totals);
    proof {
        lemma_positions_of_multiset(r@, all, tiles@.len() as int);
    }
    r
}

proof fn lemma_total_of_multiset(tiles: Seq<TileInfo>, a: Seq<usize>, b: Seq<usize>)
    requires
        a.to_multiset() == b.to_multiset(),
    ensures
        total_of(tiles, a) == total_of(tiles, b),
    decreases a.len(),
{
    broadcast use vstd::seq_lib::group_to_multiset_ensures;

    assert(a.len() == a.to_multiset().len());
    assert(b.len() == b.to_multiset().len());
    if a.len() > 0 {
        let x = a.last();
        assert(a.contains(x)) by {
            assert(a[a.len() - 1] == x);
        }
        assert(b.to_multiset().count(x) > 0);
        assert(b.contains(x));
        let k = choose|k: int| 0 <= k < b.len() && b[k] == x;
        let rest = b.remove(k);
        vstd::seq_lib::to_multiset_remove(b, k);
        assert(a =~= a.drop_last().push(x));
        vstd::seq_lib::to_multiset_build(a.drop_last(), x);
        assert(a.drop_last().to_multiset() =~= a.to_multiset().remove(x));
        assert(rest.to_multiset() =~= b.to_multiset().remove(x));
        lemma_total_of_multiset(tiles, a.drop_last(), rest);
        crate::preprocessing::split_assign::lemma_remove(tiles, b, k);
    }
}

/// Class-balanced assignment of the tiles to the three subsets.
fn stratified_assign_multi<
    F: Fn(&Vec<u64>, usize, u64, &Vec<u64>) -> u64 + Copy,
    M: Fn(&Vec<u64>, u64, &Vec<u64>, u64, &Vec<u64>) -> u64 + Copy,
    G: Fn(u64, u64) -> CostOrder + Copy,
>(
    manifests: &[&LabeledBlockManifest],
    groups: &Vec<TileGroup>,
    n_classes: usize,
    request: &SplitRequest,
    cost: F,
    move_cost: M,
    ranking: G,
) -> (lists: Vec<Vec<usize>>)
    requires
        manifests@.len() > 0,
        is_grouping(groups@, manifests@),
        n_classes == class_number(manifests@[0].label_map@),
        all_points(manifests@, n_classes as int, manifests@.len() as int) <= u64::MAX,
        request.tables_ok(groups@.len() as int),
        forall|g: &Vec<u64>, s: usize, total: u64, counts: &Vec<u64>| #[trigger]
            call_requires(cost, (g, s, total, counts)),
        forall|g: &Vec<u64>, dt: u64, dc: &Vec<u64>, rt: u64, rc: &Vec<u64>| #[trigger]
            call_requires(move_cost, (g, dt, dc, rt, rc)),
        forall|a: u64, b: u64| #[trigger] call_requires(ranking, (a, b)),
    ensures
        lists@.len() == 3,
        all_listed(crate::preprocessing::split_assign::lists(lists@)) == all_positions(
            groups@.len() as int,
        ).to_multiset(),
        exists|tiles: Seq<TileInfo>, global: Seq<u64>| #[trigger]
            stratified_outcome(
                cost,
                move_cost,
                ranking,
                crate::preprocessing::split_assign::lists(lists@),
                manifests@,
                *request,
                keys_of(groups@),
                tiles,
                global,
            ),
{
    let (tiles, global) = tile_stats(manifests, groups, n_classes);
    let order = order_tiles(&tiles, request.seed);
    let ghost keys = keys_of(groups@);
    let ghost n = groups@.len() as int;
    proof {
        lemma_total_of_multiset(tiles@, order@, all_positions(n));
    }
    let active: [bool; 3] = [
        request.train_active,
        request.val_split.is_positive(),
        request.test_split.is_positive(),
    ];
    assert(active@ =~= request.active());
    let n_tiles: usize = groups.len();
    assert(request.train_shares@.len() == request.train_shares.len());
    let targets: [i64; 3] = [
        target_of(active[0], request.train_shares[n_tiles]),
        target_of(active[1], request.val_shares[n_tiles]),
        target_of(active[2], request.test_shares[n_tiles]),
    ];
    assert(targets@ =~= request.targets(n));
    let place_cost = |s: usize, total: u64, counts: &Vec<u64>| -> (x: u64)
        ensures
            call_ensures(cost, (&global, s, total, counts), x),
        { cost(&global, s, total, counts) };
    let mut state = greedy_assign(&tiles, n_classes, &active, &order, place_cost);
    let ghost placed = state.lists();
    let shift_cost = |dt: u64, dc: &Vec<u64>, rt: u64, rc: &Vec<u64>| -> (x: u64)
        ensures
            call_ensures(move_cost, (&global, dt, dc, rt, rc), x),
        { move_cost(&global, dt, dc, rt, rc) };
    rebalance_by_size(&tiles, n_classes, &active, &targets, &mut state, shift_cost, ranking);
    proof {
        let l = state.lists();
        let act = request.active();
        let tar = request.targets(n);
        assert(forall|s: int| 1 <= s < 3 && !act[s] ==> (#[trigger] placed[s]).len() == 0);
        assert forall|s: int| 1 <= s < 3 && !act[s] implies (#[trigger] l[s]).len() == 0 by {
            assert(l[s] == placed[s]);
        }
        if request.train_active && adds_up(act, tar, n) {
            assert(!act[1] ==> placed[1].len() == 0);
            assert(!act[2] ==> placed[2].len() == 0);
            assert(tile_number(placed) == n);
            assert(crate::preprocessing::split_assign::reachable(act, tar, placed));
        }
        assert forall|p: GlobalPlacementCost, m: GlobalMoveCost, r: CostRanking| #[trigger]
            models(cost, move_cost, ranking, p, m, r) implies l == stratified_lists(
            p,
            m,
            r,
            tiles@,
            global@,
            n_classes as int,
            act,
            tar,
            request.seed,
        ) by {
            let pm = |s: int, total: u64, counts: Seq<u64>| p(global@, s, total, counts);
            let mm = |dt: u64, dc: Seq<u64>, rt: u64, rc: Seq<u64>| m(global@, dt, dc, rt, rc);
            assert(crate::preprocessing::split_assign::computes(place_cost, pm));
            assert(crate::preprocessing::split_assign::models_moves(shift_cost, ranking, mm, r));
        }
        assert(stratified_outcome(
            cost,
            move_cost,
            ranking,
            l,
            manifests@,
            *request,
            keys,
            tiles@,
            global@,
        ));
    }
    state.assigned
}

/// `split` is what the request makes of the manifests: the tiles `keys` in the
/// lists `l`.
pub open spec fn split_made<
    F: Fn(&Vec<u64>, usize, u64, &Vec<u64>) -> u64,
    M: Fn(&Vec<u64>, u64, &Vec<u64>, u64, &Vec<u64>) -> u64,
    G: Fn(u64, u64) -> CostOrder,
>(
    cost: F,
    move_cost: M,
    ranking: G,
    split: MultiThreeWaySplit,
    manifests: Seq<&LabeledBlockManifest>,
    request: SplitRequest,
    stratify_classes: bool,
    keys: Seq<TileKey>,
    l: Seq<Seq<usize>>,
) -> bool {
    &&& is_split(split, manifests, keys, l)
    &&& stratify_classes ==> exists|tiles: Seq<TileInfo>, global: Seq<u64>| #[trigger]
        stratified_outcome(
            cost,
            move_cost,
            ranking,
            l,
            manifests,
            request,
            keys,
            tiles,
            global,
        )
    &&& !stratify_classes ==> stride_outcome(l, request, keys.len() as int)
}

/// A subset whose fraction is not positive gets no block, however the tiles are
/// assigned.
pub proof fn law_switched_off_subset_is_empty<
    F: Fn(&Vec<u64>, usize, u64, &Vec<u64>) -> u64,
    M: Fn(&Vec<u64>, u64, &Vec<u64>, u64, &Vec<u64>) -> u64,
    G: Fn(u64, u64) -> CostOrder,
>(
    cost: F,
    move_cost: M,
    ranking: G,
    split: MultiThreeWaySplit,
    manifests: Seq<&LabeledBlockManifest>,
    request: SplitRequest,
    stratify_classes: bool,
    keys: Seq<TileKey>,
    l: Seq<Seq<usize>>,
)
    requires
        split_made(
            cost,
            move_cost,
            ranking,
            split,
            manifests,
            request,
            stratify_classes,
            keys,
            l,
        ),
    ensures
        !request.val_split.positive() ==> split.val@.len() == 0,
        !request.test_split.positive() ==> split.test@.len() == 0,
{
    let active = request.active();
    if stratify_classes {
        assert(!active[1] ==> l[1].len() == 0);
        assert(!active[2] ==> l[2].len() == 0);
    } else {
        let n = keys.len() as int;
        let s = request.strides(n);
        lemma_list_sizes(s, n);
        let rank = left_before(s.n, s.val_active, s.val_share, s.seed, n);
        if !active[1] {
            lemma_none_picked(s.n, false, s.val_share, s.seed, n);
        }
        if !active[2] {
            lemma_none_picked(s.left(), false, s.test_limit(), s.seed, rank);
        }
    }
}

/// The outcome of a split: rejected fractions first, then incompatible
/// manifests, then a split.
pub open spec fn split_refused(
    manifests: Seq<&LabeledBlockManifest>,
    differs: Seq<RealDiffers>,
    request: SplitRequest,
) -> bool {
    request.rejected() is Some || manifests.len() == 0 || !compatible(
        manifests,
        differs,
        manifests.len() as int,
    )
}

/// Computes a spatially disjoint, macro-tile-based three-way split across one
/// or more merged manifests.
///
/// Blocks are grouped by manifest and macro-tile: tiles of different manifests
/// are unrelated, whatever their numbers. With `stratify_classes`, tiles are
/// assigned greedily by cost and then rebalanced towards the requested sizes;
/// without it, by pure stride selection. `show` writes the numbers of the
/// message on incompatible manifests.
pub fn three_way_spatial_split_multi<
    F: Fn(&Vec<u64>, usize, u64, &Vec<u64>) -> u64 + Copy,
    M: Fn(&Vec<u64>, u64, &Vec<u64>, u64, &Vec<u64>) -> u64 + Copy,
    G: Fn(u64, u64) -> CostOrder + Copy,
    S: Fn(Real64) -> String,
>(
    manifests: &[&LabeledBlockManifest],
    differs: &Vec<RealDiffers>,
    request: &SplitRequest,
    stratify_classes: bool,
    cost: F,
    move_cost: M,
    ranking: G,
    show: S,
) -> (r: Result<MultiThreeWaySplit, ClassifierError>)
    requires
        differs@.len() == manifests@.len(),
        request.tables_ok(block_total(manifests@, manifests@.len() as int)),
        forall|x: Real64| #[trigger] call_requires(show, (x,)),
        stratify_classes && manifests@.len() > 0 ==> all_points(
            manifests@,
            class_number(manifests@[0].label_map@) as int,
            manifests@.len() as int,
        ) <= u64::MAX,
        forall|g: &Vec<u64>, s: usize, total: u64, counts: &Vec<u64>| #[trigger]
            call_requires(cost, (g, s, total, counts)),
        forall|g: &Vec<u64>, dt: u64, dc: &Vec<u64>, rt: u64, rc: &Vec<u64>| #[trigger]
            call_requires(move_cost, (g, dt, dc, rt, rc)),
        forall|a: u64, b: u64| #[trigger] call_requires(ranking, (a, b)),
    ensures
        r is Err <==> split_refused(manifests@, differs@, *request),
        r matches Err(e) ==> {
            &&& e is Pipeline
            &&& match request.rejected() {
                Some(text) => e.text() == pipeline_text(text),
                None => if manifests@.len() == 0 {
                    e.text() == pipeline_text("at least one input manifest is required"@)
                } else {
                    exists|index: int| #[trigger]
                        refused_for(e, manifests@, differs@, show, index)
                },
            }
        },
        r matches Ok(split) ==> exists|keys: Seq<TileKey>, l: Seq<Seq<usize>>| #[trigger]
            split_made(
                cost,
                move_cost,
                ranking,
                split,
                manifests@,
                *request,
                stratify_classes,
                keys,
                l,
            ),
{
    match check_fractions(request) {
        Some(e) => {
            return Err(e);
        },
        None => {},
    }
    let n_classes: usize = match validate_manifest_compatibility(
        manifests,
        differs,
        show,
    ) {
        Ok(n) => n,
        Err(e) => {
            return Err(e);
        },
    };
    let split = make_split(
        manifests,
        n_classes,
        request,
        stratify_classes,
        cost,
        move_cost,
        ranking,
    );
    let ghost (keys, l) = choose|keys: Seq<TileKey>, l: Seq<Seq<usize>>| #[trigger]
        split_made(
            cost,
            move_cost,
            ranking,
            split,
            manifests@,
            *request,
            stratify_classes,
            keys,
            l,
        );
    let out: Result<MultiThreeWaySplit, ClassifierError> = Ok(split);
    assert(split_made(
        cost,
        move_cost,
        ranking,
        out->Ok_0,
        manifests@,
        *request,
        stratify_classes,
        keys,
        l,
    ));
    out
}

/// The error on the first condition that the fractions break.
fn check_fractions(request: &SplitRequest) -> (r: Option<ClassifierError>)
    ensures
        match r {
            Some(e) => e matches ClassifierError::Pipeline(m) && request.rejected() == Some(m@),
            None => request.rejected() is None,
        },
{
    let zero = Real64 { bits: 0 };
    let one = Real64 { bits: ONE };
    if !(zero.le(request.val_split) && request.val_split.lt(one)) {
        return Some(
            ClassifierError::Pipeline(
                "val_split must be in the range [0.0, 1.0) and finite".to_owned(),
            ),
        );
    }
    if !(zero.le(request.test_split) && request.test_split.lt(one)) {
        return Some(
            ClassifierError::Pipeline(
                "test_split must be in the range [0.0, 1.0) and finite".to_owned(),
            ),
        );
    }
    if request.sum_reaches_one {
        return Some(
            ClassifierError::Pipeline(
                "val_split + test_split must be < 1.0 (the training set would otherwise be empty)".to_owned(),
            ),
        );
    }
    None
}

/// Splits compatible manifests.
fn make_split<
    F: Fn(&Vec<u64>, usize, u64, &Vec<u64>) -> u64 + Copy,
    M: Fn(&Vec<u64>, u64, &Vec<u64>, u64, &Vec<u64>) -> u64 + Copy,
    G: Fn(u64, u64) -> CostOrder + Copy,
>(
    manifests: &[&LabeledBlockManifest],
    n_classes: usize,
    request: &SplitRequest,
    stratify_classes: bool,
    cost: F,
    move_cost: M,
    ranking: G,
) -> (split: MultiThreeWaySplit)
    requires
        manifests@.len() > 0,
        n_classes == class_number(manifests@[0].label_map@),
        request.tables_ok(block_total(manifests@, manifests@.len() as int)),
        stratify_classes ==> all_points(
            manifests@,
            n_classes as int,
            manifests@.len() as int,
        ) <= u64::MAX,
        forall|g: &Vec<u64>, s: usize, total: u64, counts: &Vec<u64>| #[trigger]
            call_requires(cost, (g, s, total, counts)),
        forall|g: &Vec<u64>, dt: u64, dc: &Vec<u64>, rt: u64, rc: &Vec<u64>| #[trigger]
            call_requires(move_cost, (g, dt, dc, rt, rc)),
        forall|a: u64, b: u64| #[trigger] call_requires(ranking, (a, b)),
    ensures
        exists|keys: Seq<TileKey>, l: Seq<Seq<usize>>| #[trigger]
            split_made(
                cost,
                move_cost,
                ranking,
                split,
                manifests@,
                *request,
                stratify_classes,
                keys,
                l,
            ),
{
    let groups = group_tiles(manifests);
    let ghost keys = keys_of(groups@);
    let ghost n = groups@.len() as int;
    proof {
        lemma_grouping_keys(groups@, manifests@);
        assert(request.tables_ok(n)) by {
            assert(forall|k: int| 0 <= k <= n ==> #[trigger] request.train_shares@[k] <= k);
            assert(forall|k: int| 0 <= k <= n ==> #[trigger] request.val_shares@[k] <= k);
            assert(forall|k: int| 0 <= k <= n ==> #[trigger] request.test_shares@[k] <= k);
        }
    }
    let assigned: Vec<Vec<usize>> = if stratify_classes {
        stratified_assign_multi(manifests, &groups, n_classes, request, cost, move_cost, ranking)
    } else {
        let n_tiles: usize = groups.len();
        assert(request.val_shares@[n] <= n);
        assert(request.test_shares@[n] <= n);
        let lists = stride_lists(
            n_tiles,
            request.val_split.is_positive(),
            request.val_shares[n_tiles],
            request.test_split.is_positive(),
            request.test_shares[n_tiles],
            request.seed,
        );
        proof {
            let l = crate::preprocessing::split_assign::lists(lists@);
            assert(stride_outcome(l, *request, n));
            lemma_list_counts(request.strides(n), n, 0);
            assert(all_listed(l) == all_positions(n).to_multiset());
        }
        lists
    };
    let ghost l = crate::preprocessing::split_assign::lists(assigned@);
    assert(groups@.len() == groups.len());
    proof {
        lemma_listed_in_range(l, n);
        assert(l[0] == assigned@[0]@);
        assert(l[1] == assigned@[1]@);
        assert(l[2] == assigned@[2]@);
        assert(keys.len() == n);
    }
    let split = MultiThreeWaySplit {
        train: collect_blocks(&groups, &assigned[0], manifests),
        val: collect_blocks(&groups, &assigned[1], manifests),
        test: collect_blocks(&groups, &assigned[2], manifests),
    };
    assert(split_made(
        cost,
        move_cost,
        ranking,
        split,
        manifests@,
        *request,
        stratify_classes,
        keys,
        l,
    ));
    split
}

proof fn lemma_listed_in_range(l: Seq<Seq<usize>>, n: int)
    requires
        l.len() == 3,
        0 <= n <= usize::MAX,
        all_listed(l) == all_positions(n).to_multiset(),
    ensures
        positions_ok(l[0], n),
        positions_ok(l[1], n),
        positions_ok(l[2], n),
{
    broadcast use vstd::seq_lib::group_to_multiset_ensures;

    let all = all_positions(n);
    assert forall|s: int, k: int| 0 <= s < 3 && 0 <= k < l[s].len() implies (#[trigger] l[s][k]) < n by {
        let x = l[s][k];
        assert(l[s].contains(x));
        assert(l[s].to_multiset().count(x) > 0);
        assert(all_listed(l).count(x) > 0);
        assert(all.to_multiset().count(x) > 0);
        assert(all.contains(x));
    }
}

fn strip_dir(refs: &Vec<BlockRef>) -> (r: Vec<u64>)
    ensures
        r@ == refs@.map_values(|b: BlockRef| b.1),
{
    let mut out: Vec<u64> = Vec::new();
    let mut i: usize = 0;
    while i < refs.len()
        invariant
            i <= refs@.len(),
            out@ == refs@.take(i as int).map_values(|b: BlockRef| b.1),
        decreases refs@.len() - i,
    {
        out.push(refs[i].1);
        assert(out@ =~= refs@.take(i + 1).map_values(|b: BlockRef| b.1));
        i = i + 1;
    }
    assert(refs@.take(i as int) =~= refs@);
    out
}

/// Computes a spatially disjoint, macro-tile-based three-way split for a single
/// manifest: the split of [`three_way_spatial_split_multi`] over that manifest
/// alone, without the manifest's position.
pub fn three_way_spatial_split<
    F: Fn(&Vec<u64>, usize, u64, &Vec<u64>) -> u64 + Copy,
    M: Fn(&Vec<u64>, u64, &Vec<u64>, u64, &Vec<u64>) -> u64 + Copy,
    G: Fn(u64, u64) -> CostOrder + Copy,
>(
    manifest: &LabeledBlockManifest,
    request: &SplitRequest,
    stratify_classes: bool,
    cost: F,
    move_cost: M,
    ranking: G,
) -> (r: Result<ThreeWaySplit, ClassifierError>)
    requires
        request.tables_ok(block_total(seq![manifest], 1)),
        stratify_classes ==> all_points(
            seq![manifest],
            class_number(manifest.label_map@) as int,
            1,
        ) <= u64::MAX,
        forall|g: &Vec<u64>, s: usize, total: u64, counts: &Vec<u64>| #[trigger]
            call_requires(cost, (g, s, total, counts)),
        forall|g: &Vec<u64>, dt: u64, dc: &Vec<u64>, rt: u64, rc: &Vec<u64>| #[trigger]
            call_requires(move_cost, (g, dt, dc, rt, rc)),
        forall|a: u64, b: u64| #[trigger] call_requires(ranking, (a, b)),
    ensures
        r is Err <==> request.rejected() is Some,
        match r {
            Err(e) => e matches ClassifierError::Pipeline(m) && request.rejected() == Some(m@),
            Ok(split) => exists|multi: MultiThreeWaySplit, keys: Seq<TileKey>, l: Seq<Seq<usize>>|
                #[trigger]
                split_made(
                    cost,
                    move_cost,
                    ranking,
                    multi,
                    seq![manifest],
                    *request,
                    stratify_classes,
                    keys,
                    l,
                ) && split.train_ids@ == multi.train@.map_values(|b: BlockRef| b.1)
                    && split.val_ids@ == multi.val@.map_values(|b: BlockRef| b.1)
                    && split.test_ids@ == multi.test@.map_values(|b: BlockRef| b.1),
        },
{
    match check_fractions(request) {
        Some(e) => {
            return Err(e);
        },
        None => {},
    }
    let list: [&LabeledBlockManifest; 1] = [manifest];
    assert(list@ =~= seq![manifest]);
    let n_classes: usize = derive_n_classes(&manifest.label_map);
    let multi = make_split(
        &list,
        n_classes,
        request,
        stratify_classes,
        cost,
        move_cost,
        ranking,
    );
    Ok(
        ThreeWaySplit {
            train_ids: strip_dir(&multi.train),
            val_ids: strip_dir(&multi.val),
            test_ids: strip_dir(&multi.test),
        },
    )
}

// ── Sizes ───────────────────────────────────────────────────────────────────

/// Class-balanced assignment gives each subset the number of tiles that the
/// request asks for, give or take one, wherever these numbers add up to all
/// tiles, give or take one. A subset without a fraction gets none.
pub proof fn law_stratified_sizes_are_those_asked_for<
    F: Fn(&Vec<u64>, usize, u64, &Vec<u64>) -> u64,
    M: Fn(&Vec<u64>, u64, &Vec<u64>, u64, &Vec<u64>) -> u64,
    G: Fn(u64, u64) -> CostOrder,
>(
    cost: F,
    move_cost: M,
    ranking: G,
    split: MultiThreeWaySplit,
    manifests: Seq<&LabeledBlockManifest>,
    request: SplitRequest,
    keys: Seq<TileKey>,
    l: Seq<Seq<usize>>,
)
    requires
        split_made(cost, move_cost, ranking, split, manifests, request, true, keys, l),
        request.train_active,
        keys.len() <= i64::MAX,
        request.train_shares@[keys.len() as int] <= keys.len(),
        request.val_shares@[keys.len() as int] <= keys.len(),
        request.test_shares@[keys.len() as int] <= keys.len(),
        ({
            let n = keys.len() as int;
            let val = if request.val_split.positive() {
                request.val_shares@[n] as int
            } else {
                0
            };
            let test = if request.test_split.positive() {
                request.test_shares@[n] as int
            } else {
                0
            };
            -1 <= n - (request.train_shares@[n] + val + test) <= 1
        }),
    ensures
        ({
            let n = keys.len() as int;
            &&& -1 <= l[0].len() - request.train_shares@[n] <= 1
            &&& request.val_split.positive() ==> -1 <= l[1].len() - request.val_shares@[n] <= 1
            &&& request.test_split.positive() ==> -1 <= l[2].len() - request.test_shares@[n] <= 1
            &&& !request.val_split.positive() ==> l[1].len() == 0
            &&& !request.test_split.positive() ==> l[2].len() == 0
            &&& l[0].len() + l[1].len() + l[2].len() == n
        }),
{
    broadcast use vstd::seq_lib::group_to_multiset_ensures;

    let n = keys.len() as int;
    let active = request.active();
    let targets = request.targets(n);
    assert(active[0] && on_target(active, targets, l));
    assert(active[0] ==> -1 <= l[0].len() - targets[0] <= 1);
    assert(active[1] ==> -1 <= l[1].len() - targets[1] <= 1);
    assert(active[2] ==> -1 <= l[2].len() - targets[2] <= 1);
    assert(!active[1] ==> l[1].len() == 0);
    assert(!active[2] ==> l[2].len() == 0);
    assert(all_listed(l).len() == all_positions(n).to_multiset().len());
    assert(all_listed(l).len() == l[0].len() + l[1].len() + l[2].len());
}

/// Stride selection gives validation its share of all tiles and test its share
/// of all tiles as far as validation leaves so many, at least one tile each.
/// The rest is for training.
pub proof fn law_stride_sizes_are_those_asked_for<
    F: Fn(&Vec<u64>, usize, u64, &Vec<u64>) -> u64,
    M: Fn(&Vec<u64>, u64, &Vec<u64>, u64, &Vec<u64>) -> u64,
    G: Fn(u64, u64) -> CostOrder,
>(
    cost: F,
    move_cost: M,
    ranking: G,
    split: MultiThreeWaySplit,
    manifests: Seq<&LabeledBlockManifest>,
    request: SplitRequest,
    keys: Seq<TileKey>,
    l: Seq<Seq<usize>>,
)
    requires
        split_made(cost, move_cost, ranking, split, manifests, request, false, keys, l),
        0 < keys.len(),
        request.val_shares@[keys.len() as int] <= keys.len(),
    ensures
        ({
            let n = keys.len() as int;
            let val = request.val_shares@[n] as int;
            let test = request.test_shares@[n] as int;
            &&& request.val_split.positive() && val >= 1 ==> l[1].len() == val
            &&& request.val_split.positive() && val < 1 ==> l[1].len() == 1
            &&& !request.val_split.positive() ==> l[1].len() == 0
            &&& request.test_split.positive() && 1 <= test <= n - l[1].len() ==> l[2].len() == test
            &&& request.test_split.positive() && test > n - l[1].len() ==> l[2].len() == n
                - l[1].len()
            &&& request.test_split.positive() && test < 1 && l[1].len() < n ==> l[2].len() == 1
            &&& !request.test_split.positive() ==> l[2].len() == 0
            &&& l[0].len() + l[1].len() + l[2].len() == n
        }),
{
    law_stride_split_sizes(request.strides(keys.len() as int));
}

/// Stride selection picks one tile in each of as many equal stretches as it
/// picks tiles, and the seed says which one: the same in all of them.
pub proof fn law_stride_is_even(n: int, active: bool, share: int, seed: u64, p: int)
    requires
        0 < n,
        0 <= share <= n,
        0 <= p < n,
    ensures
        ({
            let picks = if share < 1 {
                1
            } else {
                share
            };
            let step = n / picks;
            stride_picks(n, active, share, seed, p) <==> active && p < picks * step && p % step == (
            seed as usize) as int % step
        }),
{
    let t = stride_target(share);
    let step = n / t;
    assert(step >= 1) by (nonlinear_arith)
        requires
            1 <= t <= n,
            step == n / t,
    ;
    let off = (seed as usize) as int % step;
    if stride_picks(n, active, share, seed, p) {
        let k = choose|k: int| 0 <= k < t && p == #[trigger] stride_position(n, t, seed, k);
        vstd::arithmetic::div_mod::lemma_fundamental_div_mod_converse(p, step, k, off);
        assert(k * step + step <= t * step) by (nonlinear_arith)
            requires
                k + 1 <= t,
                0 < step,
        ;
    }
    if active && p < t * step && p % step == off {
        let k = p / step;
        vstd::arithmetic::div_mod::lemma_fundamental_div_mod(p, step);
        assert(p == off + k * step) by (nonlinear_arith)
            requires
                p == step * k + off,
        ;
        assert(k < t) by (nonlinear_arith)
            requires
                p == off + k * step,
                p < t * step,
                0 <= off,
                0 < step,
        ;
        assert(0 <= k) by (nonlinear_arith)
            requires
                k == p / step,
                0 <= p,
                0 < step,
        ;
        assert(p == stride_position(n, t, seed, k));
    }
}

/// The blocks of a tile are all those of its directory that lie in it, in their
/// order.
pub proof fn law_tile_blocks(dir: usize, blocks: Seq<LabeledBlockMeta>, tile: u32, id: u64)
    ensures
        refs_in(dir, blocks, tile).contains((dir, id)) <==> exists|j: int|
            0 <= j < blocks.len() && (#[trigger] blocks[j]).macro_tile_id == tile
                && blocks[j].meta.id == id,
        refs_in(dir, blocks, tile).len() == places(
            |j: int| blocks[j].macro_tile_id == tile,
            blocks.len() as int,
        ).len(),
        forall|k: int| 0 <= k < refs_in(dir, blocks, tile).len() ==> (#[trigger] refs_in(dir, blocks, tile)[k]).0 == dir,
    decreases blocks.len(),
{
    let p = |j: int| blocks[j].macro_tile_id == tile;
    lemma_places_step(p, blocks.len() as int);
    if blocks.len() > 0 {
        let d = blocks.drop_last();
        law_tile_blocks(dir, d, tile, id);
        assert(places(|j: int| d[j].macro_tile_id == tile, d.len() as int) =~= places(
            p,
            d.len() as int,
        ));
        let before = refs_in(dir, d, tile);
        let all = refs_in(dir, blocks, tile);
        if before.contains((dir, id)) {
            let k = choose|k: int| 0 <= k < before.len() && before[k] == (dir, id);
            assert(all[k] == (dir, id));
        }
        if blocks.last().macro_tile_id == tile && blocks.last().meta.id == id {
            assert(all[all.len() - 1] == (dir, id));
            assert(blocks[blocks.len() - 1].macro_tile_id == tile);
        }
        if all.contains((dir, id)) {
            let k = choose|k: int| 0 <= k < all.len() && all[k] == (dir, id);
            if k < before.len() {
                assert(before[k] == (dir, id));
                let j = choose|j: int|
                    0 <= j < d.len() && (#[trigger] d[j]).macro_tile_id == tile && d[j].meta.id == id;
                assert(blocks[j].macro_tile_id == tile);
            } else {
                assert(blocks[blocks.len() - 1].macro_tile_id == tile);
            }
        }
        if exists|j: int|
            0 <= j < blocks.len() && (#[trigger] blocks[j]).macro_tile_id == tile
                && blocks[j].meta.id == id {
            let j = choose|j: int|
                0 <= j < blocks.len() && (#[trigger] blocks[j]).macro_tile_id == tile
                    && blocks[j].meta.id == id;
            if j < d.len() {
                assert(d[j].macro_tile_id == tile && d[j].meta.id == id);
            }
        }
    }
}

/// Manifests are merged only where all their settings agree with the first
/// one's.
pub proof fn law_compatible_manifests_agree(
    manifests: Seq<&LabeledBlockManifest>,
    differs: Seq<RealDiffers>,
    k: int,
)
    ensures
        compatible(manifests, differs, k) <==> forall|i: int|
            1 <= i < k ==> {
                let m = #[trigger] manifests[i];
                &&& m.label_map@ == manifests[0].label_map@
                &&& m.target_points == manifests[0].target_points
                &&& m.min_neighbors == manifests[0].min_neighbors
                &&& m.crs_epsg == manifests[0].crs_epsg
                &&& !differs[i].block_size
                &&& !differs[i].min_density
                &&& !differs[i].search_radius
            },
{
    if compatible(manifests, differs, k) {
        assert forall|i: int| 1 <= i < k implies {
            let m = #[trigger] manifests[i];
            &&& m.label_map@ == manifests[0].label_map@
            &&& m.target_points == manifests[0].target_points
            &&& m.min_neighbors == manifests[0].min_neighbors
            &&& m.crs_epsg == manifests[0].crs_epsg
            &&& !differs[i].block_size
            &&& !differs[i].min_density
            &&& !differs[i].search_radius
        } by {
            assert(mismatch(manifests[i], manifests[0], differs[i]) is None);
        }
    }
}

/// The setting that is named is one that differs, and none that is compared
/// before it does.
pub proof fn law_mismatch_names_a_difference(
    m: &LabeledBlockManifest,
    first: &LabeledBlockManifest,
    differs: RealDiffers,
)
    ensures
        match mismatch(m, first, differs) {
            None => m.label_map@ == first.label_map@ && m.target_points == first.target_points
                && m.min_neighbors == first.min_neighbors && m.crs_epsg == first.crs_epsg
                && !differs.block_size && !differs.min_density && !differs.search_radius,
            Some(ManifestField::LabelMap) => m.label_map@ != first.label_map@,
            Some(ManifestField::BlockSize) => differs.block_size && m.label_map@
                == first.label_map@,
            Some(ManifestField::TargetPoints) => m.target_points != first.target_points
                && !differs.block_size,
            Some(ManifestField::MinDensity) => differs.min_density && m.target_points
                == first.target_points,
            Some(ManifestField::SearchRadius) => differs.search_radius && !differs.min_density,
            Some(ManifestField::MinNeighbors) => m.min_neighbors != first.min_neighbors
                && !differs.search_radius,
            Some(ManifestField::CrsEpsg) => m.crs_epsg != first.crs_epsg && m.min_neighbors
                == first.min_neighbors,
        },
{
}

/// A split is refused where a fraction is negative, not a number or not below 1,
/// or where both leave nothing for training.
pub proof fn law_fractions_leave_a_training_set(request: SplitRequest)
    ensures
        request.rejected() is None <==> (Real64 { bits: 0 }).at_most(request.val_split)
            && request.val_split.less(Real64 { bits: 0x3FF0_0000_0000_0000 }) && (Real64 {
            bits: 0,
        }).at_most(request.test_split) && request.test_split.less(
            Real64 { bits: 0x3FF0_0000_0000_0000 },
        ) && !request.sum_reaches_one,
{
}

/// Every tile is placed, and none before one that has more points.
pub proof fn law_largest_tiles_are_placed_first(tiles: Seq<TileInfo>, seed: u64, i: int, j: int)
    requires
        tiles.len() <= usize::MAX,
        0 <= i < j < tiles.len(),
    ensures
        ({
            let order = placement_order(tiles, seed);
            &&& order.len() == tiles.len()
            &&& order.to_multiset() == Seq::new(tiles.len(), |k: int| k as usize).to_multiset()
            &&& order[i] < tiles.len() && order[j] < tiles.len()
            &&& tiles[order[i] as int].total >= tiles[order[j] as int].total
        }),
{
    let all = all_positions(tiles.len() as int);
    law_shuffle_permutes(all, seed);
    law_sort_is_stable(shuffled(all, seed), totals_of(tiles), 0);
    let order = placement_order(tiles, seed);
    lemma_positions_of_multiset(order, all, tiles.len() as int);
    assert(totals_of(tiles)[order[i] as int] >= totals_of(tiles)[order[j] as int]);
}

/// The number of classes is that of the different class indices in the label
/// map, and 8 for an empty map.
pub proof fn law_class_number(label_map: Map<Seq<char>, u8>)
    ensures
        label_map.values().len() > 0 ==> class_number(label_map) == label_map.values().len(),
        label_map.values().len() == 0 ==> class_number(label_map) == 8,
{
}

/// Of all tiles, validation gets every one that its stride picks. Of those that
/// are left, counted anew from the first, test gets every one that its own
/// stride picks with the same seed. Train gets the others.
pub proof fn law_strides_pick_the_tiles(split: StrideSplit, p: int)
    requires
        0 <= p < split.n <= usize::MAX,
        0 <= split.val_share <= split.n,
        0 <= split.test_share,
    ensures
        ({
            let seed = (split.seed as usize) as int;
            let val_picks = if split.val_share < 1 {
                1
            } else {
                split.val_share
            };
            let val_step = split.n / val_picks;
            let in_val = |i: int|
                split.val_active && i < val_picks * val_step && i % val_step == seed % val_step;
            let left = places(|i: int| !in_val(i), split.n).len() as int;
            let before = places(|i: int| !in_val(i), p).len() as int;
            let wanted = if split.test_share < left {
                split.test_share
            } else {
                left
            };
            let test_picks = if wanted < 1 {
                1
            } else {
                wanted
            };
            let test_step = left / test_picks;
            let in_test = !in_val(p) && split.test_active && before < test_picks * test_step
                && before % test_step == seed % test_step;
            &&& split.lists()[1].contains(p as usize) <==> in_val(p)
            &&& split.lists()[2].contains(p as usize) <==> in_test
            &&& split.lists()[0].contains(p as usize) <==> !in_val(p) && !in_test
        }),
{
    let seed = (split.seed as usize) as int;
    let val_picks = if split.val_share < 1 {
        1
    } else {
        split.val_share
    };
    let val_step = split.n / val_picks;
    let in_val = |i: int|
        split.val_active && i < val_picks * val_step && i % val_step == seed % val_step;
    let rest = |i: int| !in_val(i);
    assert forall|i: int| 0 <= i < split.n implies stride_picks(
        split.n,
        split.val_active,
        split.val_share,
        split.seed,
        i,
    ) == #[trigger] in_val(i) by {
        law_stride_is_even(split.n, split.val_active, split.val_share, split.seed, i);
    }
    lemma_left_places(split, in_val, p);
    lemma_left_places(split, in_val, p + 1);
    lemma_left_places(split, in_val, split.n);
    lemma_left_grows(split, p + 1, split.n);
    lemma_role_lists(split, 0, p, split.n);
    lemma_role_lists(split, 1, p, split.n);
    lemma_role_lists(split, 2, p, split.n);
    let left = split.left();
    let before = left_before(split.n, split.val_active, split.val_share, split.seed, p);
    assert(in_val(p) == stride_picks(
        split.n,
        split.val_active,
        split.val_share,
        split.seed,
        p,
    ));
    if !in_val(p) {
        assert(before < left);
        law_stride_is_even(left, split.test_active, split.test_limit(), split.seed, before);
    }
}

proof fn lemma_left_places(split: StrideSplit, in_val: spec_fn(int) -> bool, p: int)
    requires
        0 <= p <= split.n,
        forall|i: int|
            0 <= i < split.n ==> stride_picks(
                split.n,
                split.val_active,
                split.val_share,
                split.seed,
                i,
            ) == #[trigger] in_val(i),
    ensures
        left_before(split.n, split.val_active, split.val_share, split.seed, p) == places(
            |i: int| !in_val(i),
            p,
        ).len(),
    decreases p,
{
    lemma_places_step(|i: int| !in_val(i), p);
    if p > 0 {
        lemma_left_places(split, in_val, p - 1);
        assert(in_val(p - 1) == stride_picks(
            split.n,
            split.val_active,
            split.val_share,
            split.seed,
            p - 1,
        ));
    }
}

proof fn lemma_left_grows(split: StrideSplit, p: int, q: int)
    requires
        0 <= p <= q,
    ensures
        0 <= left_before(split.n, split.val_active, split.val_share, split.seed, p) <= left_before(
            split.n,
            split.val_active,
            split.val_share,
            split.seed,
            q,
        ),
    decreases q,
{
    if p < q {
        lemma_left_grows(split, p, q - 1);
    } else if q > 0 {
        lemma_left_grows(split, p - 1, q - 1);
    }
}

proof fn lemma_role_lists(split: StrideSplit, r: int, p: int, upto: int)
    requires
        0 <= p < split.n <= usize::MAX,
        0 <= upto <= split.n,
    ensures
        split.list(r, upto).contains(p as usize) <==> p < upto && split.role(p) == r,
    decreases upto,
{
    if upto > 0 {
        lemma_role_lists(split, r, p, upto - 1);
        let before = split.list(r, upto - 1);
        let all = split.list(r, upto);
        if before.contains(p as usize) {
            assert(all[before.index_of(p as usize)] == p as usize);
        }
        if p == upto - 1 && split.role(p) == r {
            assert(all[before.len() as int] == p as usize);
        }
        if all.contains(p as usize) {
            let k = all.index_of(p as usize);
            if k < before.len() {
                assert(before[k] == p as usize);
            }
        }
    }
}

/// Every block is in the group of its directory and tile and in no other. The
/// groups go by directory and by tile within one, none is empty, and each holds
/// all blocks of its tile in their order.
pub proof fn law_groups_are_the_tiles(
    groups: Seq<TileGroup>,
    manifests: Seq<&LabeledBlockManifest>,
    d: int,
    j: int,
) -> (at: int)
    requires
        is_grouping(groups, manifests),
        0 <= d < manifests.len() <= usize::MAX,
        0 <= j < manifests[d].blocks@.len(),
    ensures
        0 <= at < groups.len(),
        groups[at].key.0 == d,
        groups[at].key.1 == manifests[d].blocks@[j].macro_tile_id,
        groups[at].blocks@.contains((d as usize, manifests[d].blocks@[j].meta.id)),
        groups[at].blocks@.len() == places(
            |k: int| manifests[d].blocks@[k].macro_tile_id == manifests[d].blocks@[j].macro_tile_id,
            manifests[d].blocks@.len() as int,
        ).len(),
        forall|i: int|
            0 <= i < groups.len() && i != at ==> !((#[trigger] groups[i]).key.0 == d
                && groups[i].key.1 == manifests[d].blocks@[j].macro_tile_id),
        forall|a: int, b: int|
            0 <= a < b < groups.len() ==> (#[trigger] groups[a]).key.0 <= (
            #[trigger] groups[b]).key.0 && (groups[a].key.0 == groups[b].key.0 ==> groups[a].key.1
                < groups[b].key.1),
        forall|a: int| 0 <= a < groups.len() ==> (#[trigger] groups[a]).blocks@.len() > 0,
{
    let block = manifests[d].blocks@[j];
    let key = (d as usize, block.macro_tile_id);
    assert(has_key(groups, key));
    let at = choose|i: int| 0 <= i < groups.len() && (#[trigger] groups[i]).key == key;
    law_tile_blocks(d as usize, manifests[d].blocks@, block.macro_tile_id, block.meta.id);
    assert(groups[at].blocks@ == tile_blocks(manifests, groups[at].key));
    assert forall|a: int, b: int| 0 <= a < b < groups.len() implies (#[trigger] groups[a]).key.0
        <= (#[trigger] groups[b]).key.0 && (groups[a].key.0 == groups[b].key.0
        ==> groups[a].key.1 < groups[b].key.1) by {
        assert(key_less(groups[a].key, groups[b].key));
    }
    assert forall|i: int| 0 <= i < groups.len() && i != at implies !((#[trigger] groups[i]).key.0
        == d && groups[i].key.1 == block.macro_tile_id) by {
        if i < at {
            assert(key_less(groups[i].key, groups[at].key));
        } else {
            assert(key_less(groups[at].key, groups[i].key));
        }
    }
    at
}

} // verus!
