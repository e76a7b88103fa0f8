//! Per-class point counts of macro-tiles.

use vstd::prelude::*;

use std::collections::HashMap;

use crate::counting::sum_of;
use crate::preprocessing::dataset_split::{
    find_tile, has_key, is_grouping, keys_of, lemma_grouping_keys, TileGroup, TileKey,
};
use crate::preprocessing::labeled_pipeline::{LabeledBlockManifest, LabeledBlockMeta};
use crate::preprocessing::split_assign::{lemma_sum_nonneg, sum, tiles_ok, total_of, TileInfo};
use crate::text::{parse_usize_text, unsigned_up_to};
use crate::text_map::TextMap;

verus! {

/// The class that a key of a distribution names: a decimal index under
/// `n_classes`.
pub open spec fn class_of(key: Seq<char>, n_classes: int) -> Option<int> {
    match unsigned_up_to(key, usize::MAX as nat) {
        Some(c) => if c < n_classes {
            Some(c as int)
        } else {
            None
        },
        None => None,
    }
}

/// The points of class `c` in a distribution.
pub open spec fn entry_points(pairs: Seq<(Seq<char>, u64)>, n_classes: int, c: int) -> int
    decreases pairs.len(),
{
    if pairs.len() == 0 {
        0
    } else {
        entry_points(pairs.drop_last(), n_classes, c) + if class_of(pairs.last().0, n_classes)
            == Some(c) {
            pairs.last().1 as int
        } else {
            0
        }
    }
}

/// The points of all classes in a distribution.
pub open spec fn listed_points(pairs: Seq<(Seq<char>, u64)>, n_classes: int) -> int
    decreases pairs.len(),
{
    if pairs.len() == 0 {
        0
    } else {
        listed_points(pairs.drop_last(), n_classes) + if class_of(pairs.last().0, n_classes) is Some {
            pairs.last().1 as int
        } else {
            0
        }
    }
}

/// The place of the last block with this ID, -1 where there is none.
pub open spec fn last_with_id(blocks: Seq<LabeledBlockMeta>, id: u64) -> int
    decreases blocks.len(),
{
    if blocks.len() == 0 {
        -1
    } else if blocks.last().meta.id == id {
        blocks.len() - 1
    } else {
        last_with_id(blocks.drop_last(), id)
    }
}

/// The distribution that counts for the `j`-th block of a manifest: that of the
/// last block with its ID.
pub open spec fn distribution(blocks: Seq<LabeledBlockMeta>, j: int) -> Seq<(Seq<char>, u64)> {
    blocks[last_with_id(blocks, blocks[j].meta.id)].class_distribution.pairs()
}

/// The points of class `c` in macro-tile `tile`, over the first `upto` blocks.
pub open spec fn class_points(
    blocks: Seq<LabeledBlockMeta>,
    n_classes: int,
    tile: u32,
    c: int,
    upto: int,
) -> int
    decreases upto,
{
    if upto <= 0 {
        0
    } else {
        class_points(blocks, n_classes, tile, c, upto - 1) + if blocks[upto - 1].macro_tile_id
            == tile {
            entry_points(distribution(blocks, upto - 1), n_classes, c)
        } else {
            0
        }
    }
}

/// The points of class `c`, whatever the tile, over the first `upto` blocks.
pub open spec fn any_tile_points(
    blocks: Seq<LabeledBlockMeta>,
    n_classes: int,
    c: int,
    upto: int,
) -> int
    decreases upto,
{
    if upto <= 0 {
        0
    } else {
        any_tile_points(blocks, n_classes, c, upto - 1) + entry_points(
            distribution(blocks, upto - 1),
            n_classes,
            c,
        )
    }
}

/// All points over the first `upto` blocks.
pub open spec fn block_points(blocks: Seq<LabeledBlockMeta>, n_classes: int, upto: int) -> int
    decreases upto,
{
    if upto <= 0 {
        0
    } else {
        block_points(blocks, n_classes, upto - 1) + listed_points(
            distribution(blocks, upto - 1),
            n_classes,
        )
    }
}

/// All points over the first `dirs` manifests.
pub open spec fn all_points(
    manifests: Seq<&LabeledBlockManifest>,
    n_classes: int,
    dirs: int,
) -> int
    decreases dirs,
{
    if dirs <= 0 {
        0
    } else {
        all_points(manifests, n_classes, dirs - 1) + block_points(
            manifests[dirs - 1].blocks@,
            n_classes,
            manifests[dirs - 1].blocks@.len() as int,
        )
    }
}

/// The points of class `c` over the first `dirs` manifests.
pub open spec fn global_points(
    manifests: Seq<&LabeledBlockManifest>,
    n_classes: int,
    c: int,
    dirs: int,
) -> int
    decreases dirs,
{
    if dirs <= 0 {
        0
    } else {
        global_points(manifests, n_classes, c, dirs - 1) + any_tile_points(
            manifests[dirs - 1].blocks@,
            n_classes,
            c,
            manifests[dirs - 1].blocks@.len() as int,
        )
    }
}

/// The points of class `c` in macro-tile `key`, over the first `dirs` manifests
/// and the first `upto` blocks of the next one.
pub open spec fn tile_points(
    manifests: Seq<&LabeledBlockManifest>,
    n_classes: int,
    key: TileKey,
    c: int,
    dirs: int,
    upto: int,
) -> int {
    let blocks = manifests[key.0 as int].blocks@;
    if key.0 < dirs {
        class_points(blocks, n_classes, key.1, c, blocks.len() as int)
    } else if key.0 == dirs {
        class_points(blocks, n_classes, key.1, c, upto)
    } else {
        0
    }
}

/// `tiles` holds, tile by tile, the point counts of the listed macro-tiles.
pub open spec fn is_tile_stats(
    tiles: Seq<TileInfo>,
    manifests: Seq<&LabeledBlockManifest>,
    n_classes: int,
    keys: Seq<TileKey>,
) -> bool {
    &&& tiles.len() == keys.len()
    &&& tiles_ok(tiles, n_classes)
    &&& forall|i: int| 0 <= i < tiles.len() ==> (#[trigger] tiles[i]).key == keys[i]
    &&& forall|i: int, c: int|
        0 <= i < tiles.len() && 0 <= c < n_classes ==> (#[trigger] tiles[i].counts@[c])
            == tile_points(manifests, n_classes, keys[i], c, manifests.len() as int, 0)
}

// ── Counting ────────────────────────────────────────────────────────────────

spec fn rows(counts: Seq<Vec<u64>>) -> int
    decreases counts.len(),
{
    if counts.len() == 0 {
        0
    } else {
        rows(counts.drop_last()) + sum(counts.last()@)
    }
}

proof fn lemma_sum_update(s: Seq<u64>, c: int, v: u64)
    requires
        0 <= c < s.len(),
    ensures
        sum(s.update(c, v)) == sum(s) - s[c] + v,
    decreases s.len(),
{
    let u = s.update(c, v);
    if c == s.len() - 1 {
        assert(u.drop_last() =~= s.drop_last());
    } else {
        assert(u.drop_last() =~= s.drop_last().update(c, v));
        lemma_sum_update(s.drop_last(), c, v);
    }
}

proof fn lemma_rows_update(counts: Seq<Vec<u64>>, g: int, row: Vec<u64>)
    requires
        0 <= g < counts.len(),
    ensures
        rows(counts.update(g, row)) == rows(counts) - sum(counts[g]@) + sum(row@),
    decreases counts.len(),
{
    let u = counts.update(g, row);
    if g == counts.len() - 1 {
        assert(u.drop_last() =~= counts.drop_last());
    } else {
        assert(u.drop_last() =~= counts.drop_last().update(g, row));
        lemma_rows_update(counts.drop_last(), g, row);
    }
}

proof fn lemma_rows_bound(counts: Seq<Vec<u64>>)
    ensures
        rows(counts) >= 0,
        forall|g: int| 0 <= g < counts.len() ==> sum((#[trigger] counts[g])@) <= rows(counts),
    decreases counts.len(),
{
    if counts.len() > 0 {
        let d = counts.drop_last();
        lemma_rows_bound(d);
        lemma_sum_nonneg(counts.last()@);
        assert forall|g: int| 0 <= g < counts.len() implies sum((#[trigger] counts[g])@) <= rows(
            counts,
        ) by {
            if g < d.len() {
                assert(d[g] == counts[g]);
            }
        }
    }
}

proof fn lemma_points_nonneg(
    pairs: Seq<(Seq<char>, u64)>,
    n_classes: int,
)
    ensures
        listed_points(pairs, n_classes) >= 0,
    decreases pairs.len(),
{
    if pairs.len() > 0 {
        lemma_points_nonneg(pairs.drop_last(), n_classes);
    }
}

proof fn lemma_listed_prefix(pairs: Seq<(Seq<char>, u64)>, n_classes: int, e: int)
    requires
        0 <= e <= pairs.len(),
    ensures
        listed_points(pairs.take(e), n_classes) <= listed_points(pairs, n_classes),
    decreases pairs.len() - e,
{
    if e == pairs.len() {
        assert(pairs.take(e) =~= pairs);
    } else {
        lemma_listed_prefix(pairs, n_classes, e + 1);
        assert(pairs.take(e + 1).drop_last() =~= pairs.take(e));
    }
}

proof fn lemma_block_points_monotone(blocks: Seq<LabeledBlockMeta>, n_classes: int, j: int, k: int)
    requires
        0 <= j <= k,
    ensures
        0 <= block_points(blocks, n_classes, j) <= block_points(blocks, n_classes, k),
    decreases k,
{
    if k > 0 {
        lemma_points_nonneg(distribution(blocks, k - 1), n_classes);
        if j < k {
            lemma_block_points_monotone(blocks, n_classes, j, k - 1);
        } else {
            lemma_block_points_monotone(blocks, n_classes, k - 1, k - 1);
        }
    }
}

proof fn lemma_all_points_monotone(
    manifests: Seq<&LabeledBlockManifest>,
    n_classes: int,
    j: int,
    k: int,
)
    requires
        0 <= j <= k,
    ensures
        0 <= all_points(manifests, n_classes, j) <= all_points(manifests, n_classes, k),
    decreases k,
{
    if k > 0 {
        let b = manifests[k - 1].blocks@;
        lemma_block_points_monotone(b, n_classes, 0, b.len() as int);
        if j < k {
            lemma_all_points_monotone(manifests, n_classes, j, k - 1);
        } else {
            lemma_all_points_monotone(manifests, n_classes, k - 1, k - 1);
        }
    }
}

/// Adds a distribution to the counts of its tile and to the global counts.
fn add_distribution(
    row: &mut Vec<u64>,
    global: &mut Vec<u64>,
    dist: &TextMap<u64>,
    n_classes: usize,
)
    requires
        old(row)@.len() == n_classes,
        old(global)@.len() == n_classes,
        sum(old(row)@) <= sum(old(global)@),
        sum(old(global)@) + listed_points(dist.pairs(), n_classes as int) <= u64::MAX,
    ensures
        final(row)@.len() == n_classes,
        final(global)@.len() == n_classes,
        sum(final(row)@) == sum(old(row)@) + listed_points(dist.pairs(), n_classes as int),
        sum(final(global)@) == sum(old(global)@) + listed_points(dist.pairs(), n_classes as int),
        forall|c: int|
            0 <= c < n_classes ==> (#[trigger] final(row)@[c]) == old(row)@[c] + entry_points(
                dist.pairs(),
                n_classes as int,
                c,
            ),
        forall|c: int|
            0 <= c < n_classes ==> (#[trigger] final(global)@[c]) == old(global)@[c] + entry_points(
                dist.pairs(),
                n_classes as int,
                c,
            ),
{
    let ghost pairs = dist.pairs();
    let ghost n = n_classes as int;
    let len: usize = dist.len();
    let mut e: usize = 0;
    assert(pairs.take(0) =~= Seq::empty());
    while e < len
        invariant
            e <= len,
            len == pairs.len(),
            pairs == dist.pairs(),
            n == n_classes,
            row@.len() == n_classes,
            global@.len() == n_classes,
            sum(old(row)@) <= sum(old(global)@),
            sum(old(global)@) + listed_points(pairs, n) <= u64::MAX,
            sum(row@) == sum(old(row)@) + listed_points(pairs.take(e as int), n),
            sum(global@) == sum(old(global)@) + listed_points(pairs.take(e as int), n),
            forall|c: int|
                0 <= c < n ==> (#[trigger] row@[c]) == old(row)@[c] + entry_points(
                    pairs.take(e as int),
                    n,
                    c,
                ),
            forall|c: int|
                0 <= c < n ==> (#[trigger] global@[c]) == old(global)@[c] + entry_points(
                    pairs.take(e as int),
                    n,
                    c,
                ),
        decreases len - e,
    {
        let ghost next = pairs.take(e + 1);
        proof {
            assert(next.drop_last() =~= pairs.take(e as int));
            assert(next.last() == pairs[e as int]);
            lemma_listed_prefix(pairs, n, e + 1);
        }
        let ghost row0 = row@;
        let ghost global0 = global@;
        match parse_usize_text(dist.key_at(e)) {
            Some(idx) => {
                if idx < n_classes {
                    let v: u64 = dist.value_at(e);
                    proof {
                        lemma_sum_nonneg(row@);
                        lemma_sum_nonneg(global@);
                        assert(row@[idx as int] <= sum(row@));
                        assert(global@[idx as int] <= sum(global@));
                        assert(class_of(next.last().0, n) == Some(idx as int));
                    }
                    let a: u64 = row[idx] + v;
                    let b: u64 = global[idx] + v;
                    row.set(idx, a);
                    global.set(idx, b);
                    proof {
                        lemma_sum_update(row0, idx as int, a);
                        lemma_sum_update(global0, idx as int, b);
                    }
                }
            },
            None => {},
        }
        e = e + 1;
    }
    assert(pairs.take(e as int) =~= pairs);
}

/// Adds the points of a distribution to a sum; nothing where it does not fit.
fn add_listed(total: u64, dist: &TextMap<u64>, n_classes: usize) -> (r: Option<u64>)
    ensures
        match r {
            Some(t) => t == total + listed_points(dist.pairs(), n_classes as int),
            None => total + listed_points(dist.pairs(), n_classes as int) > u64::MAX,
        },
{
    let ghost pairs = dist.pairs();
    let ghost n = n_classes as int;
    let len: usize = dist.len();
    let mut out: u64 = total;
    let mut e: usize = 0;
    assert(pairs.take(0) =~= Seq::empty());
    while e < len
        invariant
            e <= len,
            len == pairs.len(),
            pairs == dist.pairs(),
            n == n_classes,
            out == total + listed_points(pairs.take(e as int), n),
        decreases len - e,
    {
        let ghost next = pairs.take(e + 1);
        proof {
            assert(next.drop_last() =~= pairs.take(e as int));
            assert(next.last() == pairs[e as int]);
            lemma_listed_prefix(pairs, n, e + 1);
        }
        match parse_usize_text(dist.key_at(e)) {
            Some(idx) => {
                if idx < n_classes {
                    assert(class_of(next.last().0, n) == Some(idx as int));
                    match out.checked_add(dist.value_at(e)) {
                        Some(t) => {
                            out = t;
                        },
                        None => {
                            return None;
                        },
                    }
                }
            },
            None => {},
        }
        e = e + 1;
    }
    assert(pairs.take(e as int) =~= pairs);
    Some(out)
}

/// The number of all points of all classes; nothing where it does not fit 64
/// bits.
pub fn count_points(manifests: &[&LabeledBlockManifest], n_classes: usize) -> (r: Option<u64>)
    ensures
        match r {
            Some(t) => t == all_points(manifests@, n_classes as int, manifests@.len() as int),
            None => all_points(manifests@, n_classes as int, manifests@.len() as int) > u64::MAX,
        },
{
    broadcast use vstd::std_specs::hash::group_hash_axioms;

    let ghost n = n_classes as int;
    let mut total: u64 = 0;
    let mut dir: usize = 0;
    while dir < manifests.len()
        invariant
            dir <= manifests@.len(),
            n == n_classes,
            total == all_points(manifests@, n, dir as int),
        decreases manifests@.len() - dir,
    {
        let blocks = &manifests[dir].blocks;
        let places = last_places(blocks);
        let ghost before = total;
        let mut j: usize = 0;
        proof {
            lemma_all_points_monotone(manifests@, n, dir + 1, manifests@.len() as int);
        }
        while j < blocks.len()
            invariant
                dir < manifests@.len(),
                blocks@ == manifests@[dir as int].blocks@,
                j <= blocks@.len(),
                n == n_classes,
                before == all_points(manifests@, n, dir as int),
                total == before + block_points(blocks@, n, j as int),
                all_points(manifests@, n, dir + 1) <= all_points(
                    manifests@,
                    n,
                    manifests@.len() as int,
                ),
                forall|id: u64| #[trigger]
                    places@.dom().contains(id) <==> last_with_id(blocks@, id) >= 0,
                forall|id: u64| #[trigger]
                    places@.dom().contains(id) ==> places@[id] == last_with_id(blocks@, id),
            decreases blocks@.len() - j,
        {
            proof {
                lemma_last_with_id(blocks@, j as int);
                lemma_block_points_monotone(blocks@, n, j + 1, blocks@.len() as int);
            }
            let place: usize = match places.get(&blocks[j].meta.id) {
                Some(p) => *p,
                None => 0,
            };
            assert(place == last_with_id(blocks@, blocks@[j as int].meta.id));
            let dist = &blocks[place].class_distribution;
            assert(dist.pairs() == distribution(blocks@, j as int));
            match add_listed(total, dist, n_classes) {
                Some(t) => {
                    total = t;
                },
                None => {
                    return None;
                },
            }
            j = j + 1;
        }
        dir = dir + 1;
    }
    Some(total)
}

/// For each block ID the place of the last block that has it.
pub fn last_places(blocks: &Vec<LabeledBlockMeta>) -> (r: HashMap<u64, usize>)
    ensures
        forall|id: u64| #[trigger]
            r@.dom().contains(id) <==> last_with_id(blocks@, id) >= 0,
        forall|id: u64| #[trigger] r@.dom().contains(id) ==> r@[id] == last_with_id(blocks@, id),
{
    broadcast use vstd::std_specs::hash::group_hash_axioms;

    let mut out: HashMap<u64, usize> = HashMap::new();
    let mut j: usize = 0;
    assert(blocks@.take(0) =~= Seq::empty());
    while j < blocks.len()
        invariant
            j <= blocks@.len(),
            forall|id: u64| #[trigger]
                out@.dom().contains(id) <==> last_with_id(blocks@.take(j as int), id) >= 0,
            forall|id: u64| #[trigger]
                out@.dom().contains(id) ==> out@[id] == last_with_id(blocks@.take(j as int), id),
        decreases blocks@.len() - j,
    {
        proof {
            assert(blocks@.take(j + 1).drop_last() =~= blocks@.take(j as int));
            assert(blocks@.take(j + 1).last() == blocks@[j as int]);
        }
        out.insert(blocks[j].meta.id, j);
        j = j + 1;
    }
    assert(blocks@.take(j as int) =~= blocks@);
    out
}

proof fn lemma_last_with_id(blocks: Seq<LabeledBlockMeta>, j: int)
    requires
        0 <= j < blocks.len(),
    ensures
        j <= last_with_id(blocks, blocks[j].meta.id) < blocks.len(),
    decreases blocks.len(),
{
    if j < blocks.len() - 1 && blocks.last().meta.id != blocks[j].meta.id {
        assert(blocks.drop_last()[j] == blocks[j]);
        lemma_last_with_id(blocks.drop_last(), j);
    }
}

fn zeros(n: usize) -> (r: Vec<u64>)
    ensures
        r@.len() == n,
        forall|c: int| 0 <= c < n ==> (#[trigger] r@[c]) == 0,
        sum(r@) == 0,
{
    let mut out: Vec<u64> = Vec::new();
    let mut c: usize = 0;
    while c < n
        invariant
            c <= n,
            out@.len() == c,
            forall|k: int| 0 <= k < c ==> (#[trigger] out@[k]) == 0,
            sum(out@) == 0,
        decreases n - c,
    {
        let ghost before = out@;
        out.push(0);
        assert(out@.drop_last() =~= before);
        c = c + 1;
    }
    out
}

/// The counts of all tiles after the first `dirs` manifests and the first
/// `upto` blocks of the next one.
spec fn counted(
    counts: Seq<Vec<u64>>,
    global: Seq<u64>,
    manifests: Seq<&LabeledBlockManifest>,
    n_classes: int,
    keys: Seq<TileKey>,
    dirs: int,
    upto: int,
) -> bool {
    &&& counts.len() == keys.len()
    &&& global.len() == n_classes
    &&& forall|g: int| 0 <= g < counts.len() ==> (#[trigger] counts[g])@.len() == n_classes
    &&& forall|g: int, c: int|
        0 <= g < counts.len() && 0 <= c < n_classes ==> (#[trigger] counts[g]@[c]) == tile_points(
            manifests,
            n_classes,
            keys[g],
            c,
            dirs,
            upto,
        )
    &&& rows(counts) == sum(global)
    &&& sum(global) == all_points(manifests, n_classes, dirs) + if upto > 0 {
        block_points(manifests[dirs].blocks@, n_classes, upto)
    } else {
        0
    }
    &&& forall|c: int|
        0 <= c < n_classes ==> (#[trigger] global[c]) == global_points(
            manifests,
            n_classes,
            c,
            dirs,
        ) + if upto > 0 {
            any_tile_points(manifests[dirs].blocks@, n_classes, c, upto)
        } else {
            0
        }
}

fn count_block(
    counts: &mut Vec<Vec<u64>>,
    global: &mut Vec<u64>,
    manifests: &[&LabeledBlockManifest],
    groups: &Vec<TileGroup>,
    n_classes: usize,
    dir: usize,
    j: usize,
    places: &HashMap<u64, usize>,
)
    requires
        is_grouping(groups@, manifests@),
        dir < manifests@.len(),
        j < manifests@[dir as int].blocks@.len(),
        counted(
            old(counts)@,
            old(global)@,
            manifests@,
            n_classes as int,
            keys_of(groups@),
            dir as int,
            j as int,
        ),
        all_points(manifests@, n_classes as int, manifests@.len() as int) <= u64::MAX,
        forall|id: u64| #[trigger]
            places@.dom().contains(id) <==> last_with_id(manifests@[dir as int].blocks@, id) >= 0,
        forall|id: u64| #[trigger]
            places@.dom().contains(id) ==> places@[id] == last_with_id(
                manifests@[dir as int].blocks@,
                id,
            ),
    ensures
        counted(
            final(counts)@,
            final(global)@,
            manifests@,
            n_classes as int,
            keys_of(groups@),
            dir as int,
            j + 1,
        ),
{
    broadcast use vstd::std_specs::hash::group_hash_axioms;

    let ghost n = n_classes as int;
    let ghost keys = keys_of(groups@);
    let ghost d = dir as int;
    let blocks = &manifests[dir].blocks;
    let key: TileKey = (dir, blocks[j].macro_tile_id);
    proof {
        lemma_grouping_keys(groups@, manifests@);
        assert(has_key(groups@, (dir, manifests@[d].blocks@[j as int].macro_tile_id)));
        lemma_last_with_id(blocks@, j as int);
        lemma_all_points_monotone(manifests@, n, d + 1, manifests@.len() as int);
        lemma_block_points_monotone(blocks@, n, j + 1, blocks@.len() as int);
        lemma_rows_bound(counts@);
    }
    let (_, at) = find_tile(groups, key);
    let place: usize = match places.get(&blocks[j].meta.id) {
        Some(p) => *p,
        None => 0,
    };
    assert(place == last_with_id(blocks@, blocks@[j as int].meta.id));
    let dist = &blocks[place].class_distribution;
    assert(dist.pairs() == distribution(blocks@, j as int));
    let ghost counts0 = counts@;
    let ghost global0 = global@;
    let mut row: Vec<u64> = Vec::new();
    std::mem::swap(&mut row, &mut counts[at]);
    let ghost row0 = row@;
    assert(row0 == counts0[at as int]@);
    assert(sum(counts0[at as int]@) <= rows(counts0));
    add_distribution(&mut row, global, dist, n_classes);
    counts.set(at, row);
    proof {
        assert(counts@ =~= counts0.update(at as int, row));
        lemma_rows_update(counts0, at as int, row);
        assert(keys[at as int] == key);
        assert forall|g: int, c: int|
            0 <= g < counts@.len() && 0 <= c < n implies (#[trigger] counts@[g]@[c]) == tile_points(
            manifests@,
            n,
            keys[g],
            c,
            d,
            j + 1,
        ) by {
            assert(counts0[g]@[c] == tile_points(manifests@, n, keys[g], c, d, j as int));
            if g == at {
                assert(row@[c] == row0[c] + entry_points(dist.pairs(), n, c));
            } else {
                if g < at {
                    assert(crate::preprocessing::dataset_split::key_less(groups@[g].key, groups@[at as int].key));
                } else {
                    assert(crate::preprocessing::dataset_split::key_less(groups@[at as int].key, groups@[g].key));
                }
                assert(keys[g] == groups@[g].key);
                assert(keys[g] != key);
            }
        }
        assert forall|c: int| 0 <= c < n implies (#[trigger] global@[c]) == global_points(
            manifests@,
            n,
            c,
            d,
        ) + any_tile_points(blocks@, n, c, j + 1) by {
            assert(global0[c] == global_points(manifests@, n, c, d) + if j > 0 {
                any_tile_points(blocks@, n, c, j as int)
            } else {
                0
            });
        }
    }
}

fn total_row(row: &Vec<u64>) -> (r: u64)
    requires
        sum(row@) <= u64::MAX,
    ensures
        r == sum(row@),
{
    let mut total: u64 = 0;
    let mut c: usize = 0;
    assert(row@.take(0) =~= Seq::empty());
    while c < row.len()
        invariant
            c <= row@.len(),
            sum(row@) <= u64::MAX,
            total == sum(row@.take(c as int)),
        decreases row@.len() - c,
    {
        proof {
            assert(row@.take(c + 1).drop_last() =~= row@.take(c as int));
            lemma_sum_prefix(row@, c + 1);
        }
        total = total + row[c];
        c = c + 1;
    }
    assert(row@.take(c as int) =~= row@);
    total
}

proof fn lemma_sum_prefix(s: Seq<u64>, k: int)
    requires
        0 <= k <= s.len(),
    ensures
        sum(s.take(k)) <= sum(s),
    decreases s.len() - k,
{
    if k == s.len() {
        assert(s.take(k) =~= s);
    } else {
        lemma_sum_prefix(s, k + 1);
        assert(s.take(k + 1).drop_last() =~= s.take(k));
    }
}

/// Counts the points of every macro-tile, class by class, and those of each
/// class over all tiles.
pub fn tile_stats(
    manifests: &[&LabeledBlockManifest],
    groups: &Vec<TileGroup>,
    n_classes: usize,
) -> (r: (Vec<TileInfo>, Vec<u64>))
    requires
        is_grouping(groups@, manifests@),
        all_points(manifests@, n_classes as int, manifests@.len() as int) <= u64::MAX,
    ensures
        is_tile_stats(r.0@, manifests@, n_classes as int, keys_of(groups@)),
        r.1@.len() == n_classes,
        forall|c: int|
            0 <= c < n_classes ==> (#[trigger] r.1@[c]) == global_points(
                manifests@,
                n_classes as int,
                c,
                manifests@.len() as int,
            ),
        total_of(
            r.0@,
            crate::preprocessing::dataset_split::all_positions(r.0@.len() as int),
        ) == all_points(manifests@, n_classes as int, manifests@.len() as int),
{
    let ghost n = n_classes as int;
    let ghost keys = keys_of(groups@);
    let mut counts: Vec<Vec<u64>> = Vec::new();
    let mut global: Vec<u64> = zeros(n_classes);
    let mut g: usize = 0;
    while g < groups.len()
        invariant
            g <= groups@.len(),
            counts@.len() == g,
            n == n_classes,
            forall|k: int| 0 <= k < g ==> (#[trigger] counts@[k])@.len() == n_classes,
            forall|k: int, c: int|
                0 <= k < g && 0 <= c < n ==> (#[trigger] counts@[k]@[c]) == 0,
            rows(counts@) == 0,
        decreases groups@.len() - g,
    {
        let ghost before = counts@;
        counts.push(zeros(n_classes));
        assert(counts@.drop_last() =~= before);
        g = g + 1;
    }
    proof {
        assert forall|k: int, c: int|
            0 <= k < counts@.len() && 0 <= c < n implies (#[trigger] counts@[k]@[c]) == tile_points(
            manifests@,
            n,
            keys[k],
            c,
            0,
            0,
        ) by {}
    }
    let mut dir: usize = 0;
    while dir < manifests.len()
        invariant
            dir <= manifests@.len(),
            n == n_classes,
            keys == keys_of(groups@),
            is_grouping(groups@, manifests@),
            all_points(manifests@, n, manifests@.len() as int) <= u64::MAX,
            counted(counts@, global@, manifests@, n, keys, dir as int, 0),
        decreases manifests@.len() - dir,
    {
        let blocks = &manifests[dir].blocks;
        let places = last_places(blocks);
        let mut j: usize = 0;
        while j < blocks.len()
            invariant
                dir < manifests@.len(),
                blocks@ == manifests@[dir as int].blocks@,
                j <= blocks@.len(),
                n == n_classes,
                keys == keys_of(groups@),
                is_grouping(groups@, manifests@),
                all_points(manifests@, n, manifests@.len() as int) <= u64::MAX,
                forall|id: u64| #[trigger]
                    places@.dom().contains(id) <==> last_with_id(blocks@, id) >= 0,
                forall|id: u64| #[trigger]
                    places@.dom().contains(id) ==> places@[id] == last_with_id(blocks@, id),
                counted(counts@, global@, manifests@, n, keys, dir as int, j as int),
            decreases blocks@.len() - j,
        {
            count_block(&mut counts, &mut global, manifests, groups, n_classes, dir, j, &places);
            j = j + 1;
        }
        proof {
            lemma_counted_next(counts@, global@, manifests@, n, keys, dir as int);
        }
        dir = dir + 1;
    }
    let mut tiles: Vec<TileInfo> = Vec::new();
    let mut i: usize = 0;
    let ghost all = counts@;
    proof {
        lemma_rows_bound(all);
        assert(all.take(0) =~= Seq::empty());
        assert(crate::preprocessing::dataset_split::all_positions(0) =~= Seq::empty());
    }
    while i < groups.len()
        invariant
            i <= groups@.len(),
            n == n_classes,
            keys == keys_of(groups@),
            all.len() == keys.len(),
            keys.len() == groups@.len(),
            counts@.len() == all.len(),
            forall|k: int| i <= k < all.len() ==> (#[trigger] counts@[k]) == all[k],
            forall|k: int| 0 <= k < all.len() ==> sum((#[trigger] all[k])@) <= rows(all),
            forall|k: int| 0 <= k < all.len() ==> (#[trigger] all[k])@.len() == n_classes,
            rows(all) <= u64::MAX,
            tiles@.len() == i,
            forall|k: int|
                0 <= k < i ==> (#[trigger] tiles@[k]).key == keys[k] && tiles@[k].counts@
                    == all[k]@ && tiles@[k].total == sum(all[k]@),
            total_of(
                tiles@,
                crate::preprocessing::dataset_split::all_positions(i as int),
            ) == rows(all.take(i as int)),
        decreases groups@.len() - i,
    {
        assert(counts@[i as int] == all[i as int]);
        let mut row: Vec<u64> = Vec::new();
        std::mem::swap(&mut row, &mut counts[i]);
        let total: u64 = total_row(&row);
        let ghost before = tiles@;
        tiles.push(TileInfo { key: groups[i].key, counts: row, total });
        proof {
            let p = crate::preprocessing::dataset_split::all_positions(i as int);
            let q = crate::preprocessing::dataset_split::all_positions(i + 1);
            assert(q.drop_last() =~= p);
            assert(q.last() == i);
            lemma_total_of_prefix(before, tiles@, p);
            assert(all.take(i + 1).drop_last() =~= all.take(i as int));
        }
        i = i + 1;
    }
    proof {
        assert(all.take(i as int) =~= all);
        assert forall|k: int, c: int|
            0 <= k < tiles@.len() && 0 <= c < n implies (#[trigger] tiles@[k].counts@[c])
            == tile_points(manifests@, n, keys[k], c, manifests@.len() as int, 0) by {
            assert(all[k]@[c] == tile_points(manifests@, n, keys[k], c, manifests@.len() as int, 0));
        }
    }
    (tiles, global)
}

proof fn lemma_total_of_prefix(a: Seq<TileInfo>, b: Seq<TileInfo>, list: Seq<usize>)
    requires
        a.len() <= b.len(),
        forall|k: int| 0 <= k < a.len() ==> (#[trigger] b[k]) == a[k],
        forall|k: int| 0 <= k < list.len() ==> (#[trigger] list[k]) < a.len(),
    ensures
        total_of(a, list) == total_of(b, list),
    decreases list.len(),
{
    if list.len() > 0 {
        assert(list[list.len() - 1] < a.len());
        assert forall|k: int| 0 <= k < list.drop_last().len() implies (
        #[trigger] list.drop_last()[k]) < a.len() by {
            assert(list[k] < a.len());
        }
        lemma_total_of_prefix(a, b, list.drop_last());
    }
}

proof fn lemma_counted_next(
    counts: Seq<Vec<u64>>,
    global: Seq<u64>,
    manifests: Seq<&LabeledBlockManifest>,
    n: int,
    keys: Seq<TileKey>,
    dir: int,
)
    requires
        0 <= dir < manifests.len(),
        counted(
            counts,
            global,
            manifests,
            n,
            keys,
            dir,
            manifests[dir].blocks@.len() as int,
        ),
    ensures
        counted(counts, global, manifests, n, keys, dir + 1, 0),
{
    let upto = manifests[dir].blocks@.len() as int;
    assert forall|g: int, c: int|
        0 <= g < counts.len() && 0 <= c < n implies (#[trigger] counts[g]@[c]) == tile_points(
        manifests,
        n,
        keys[g],
        c,
        dir + 1,
        0,
    ) by {
        assert(counts[g]@[c] == tile_points(manifests, n, keys[g], c, dir, upto));
    }
    assert forall|c: int| 0 <= c < n implies (#[trigger] global[c]) == global_points(
        manifests,
        n,
        c,
        dir + 1,
    ) by {
        assert(global[c] == global_points(manifests, n, c, dir) + if upto > 0 {
            any_tile_points(manifests[dir].blocks@, n, c, upto)
        } else {
            0
        });
    }
}

/// A block's entry for a class sums the counts of the keys that spell it.
pub proof fn law_entries_are_summed(pairs: Seq<(Seq<char>, u64)>, n_classes: int, c: int)
    requires
        0 <= c < n_classes,
    ensures
        entry_points(pairs, n_classes, c) == sum_of(
            Seq::new(
                pairs.len(),
                |i: int|
                    if unsigned_up_to(pairs[i].0, usize::MAX as nat) == Some(c as nat) {
                        pairs[i].1 as int
                    } else {
                        0
                    },
            ),
        ),
    decreases pairs.len(),
{
    let s = Seq::new(
        pairs.len(),
        |i: int|
            if unsigned_up_to(pairs[i].0, usize::MAX as nat) == Some(c as nat) {
                pairs[i].1 as int
            } else {
                0
            },
    );
    if pairs.len() > 0 {
        let rest = pairs.drop_last();
        law_entries_are_summed(rest, n_classes, c);
        assert(s.drop_last() =~= Seq::new(
            rest.len(),
            |i: int|
                if unsigned_up_to(rest[i].0, usize::MAX as nat) == Some(c as nat) {
                    rest[i].1 as int
                } else {
                    0
                },
        ));
    }
}

/// What a block lists in all is what it lists for the classes together.
pub proof fn law_classes_share_the_listed_points(pairs: Seq<(Seq<char>, u64)>, n_classes: int)
    requires
        0 <= n_classes,
    ensures
        listed_points(pairs, n_classes) == sum_of(
            Seq::new(n_classes as nat, |c: int| entry_points(pairs, n_classes, c)),
        ),
    decreases pairs.len(),
{
    let s = Seq::new(n_classes as nat, |c: int| entry_points(pairs, n_classes, c));
    if pairs.len() == 0 {
        lemma_sum_of_zeros(s);
    } else {
        let rest = pairs.drop_last();
        law_classes_share_the_listed_points(rest, n_classes);
        let t = Seq::new(n_classes as nat, |c: int| entry_points(rest, n_classes, c));
        let x = pairs.last().1 as int;
        match class_of(pairs.last().0, n_classes) {
            Some(k) => {
                assert(s =~= t.update(k, t[k] + x));
                lemma_sum_of_update(t, k, t[k] + x);
            },
            None => {
                assert(s =~= t);
            },
        }
    }
}

proof fn lemma_sum_of_zeros(s: Seq<int>)
    requires
        forall|i: int| 0 <= i < s.len() ==> #[trigger] s[i] == 0,
    ensures
        sum_of(s) == 0,
    decreases s.len(),
{
    if s.len() > 0 {
        lemma_sum_of_zeros(s.drop_last());
    }
}

proof fn lemma_sum_of_update(s: Seq<int>, k: int, x: int)
    requires
        0 <= k < s.len(),
    ensures
        sum_of(s.update(k, x)) == sum_of(s) - s[k] + x,
    decreases s.len(),
{
    let t = s.update(k, x);
    if k == s.len() - 1 {
        assert(t.drop_last() =~= s.drop_last());
    } else {
        assert(t.drop_last() =~= s.drop_last().update(k, x));
        lemma_sum_of_update(s.drop_last(), k, x);
    }
}

/// Of the blocks with an ID the last one is found; none where no block has it.
pub proof fn law_last_block_with_an_id(blocks: Seq<LabeledBlockMeta>, id: u64)
    ensures
        -1 <= last_with_id(blocks, id) < blocks.len(),
        last_with_id(blocks, id) >= 0 ==> blocks[last_with_id(blocks, id)].meta.id == id,
        forall|j: int|
            last_with_id(blocks, id) < j < blocks.len() ==> (#[trigger] blocks[j]).meta.id != id,
    decreases blocks.len(),
{
    if blocks.len() > 0 {
        let rest = blocks.drop_last();
        law_last_block_with_an_id(rest, id);
        if blocks.last().meta.id != id {
            let k = last_with_id(rest, id);
            if k >= 0 {
                assert(rest[k] == blocks[k]);
            }
            assert forall|j: int| k < j < blocks.len() implies (#[trigger] blocks[j]).meta.id
                != id by {
                if j < rest.len() {
                    assert(rest[j] == blocks[j]);
                }
            }
        }
    }
}

/// The distribution that counts for a block is that of the last block with its
/// ID.
pub proof fn law_last_distribution_counts(blocks: Seq<LabeledBlockMeta>, j: int)
    requires
        0 <= j < blocks.len(),
    ensures
        exists|k: int|
            j <= k < blocks.len() && (#[trigger] blocks[k]).meta.id == blocks[j].meta.id
                && distribution(blocks, j) == blocks[k].class_distribution.pairs() && forall|l: int|
                k < l < blocks.len() ==> (#[trigger] blocks[l]).meta.id != blocks[j].meta.id,
{
    law_last_block_with_an_id(blocks, blocks[j].meta.id);
    let k = last_with_id(blocks, blocks[j].meta.id);
    assert(blocks[k].meta.id == blocks[j].meta.id);
}

/// A tile's points of a class are those of its blocks; points of other tiles do
/// not count, and the points of a class in all tiles are those of all blocks.
pub proof fn law_tile_points_are_summed(
    blocks: Seq<LabeledBlockMeta>,
    n_classes: int,
    tile: u32,
    c: int,
    upto: int,
)
    requires
        0 <= upto <= blocks.len(),
    ensures
        class_points(blocks, n_classes, tile, c, upto) == sum_of(
            Seq::new(
                upto as nat,
                |j: int|
                    if blocks[j].macro_tile_id == tile {
                        entry_points(distribution(blocks, j), n_classes, c)
                    } else {
                        0
                    },
            ),
        ),
        any_tile_points(blocks, n_classes, c, upto) == sum_of(
            Seq::new(upto as nat, |j: int| entry_points(distribution(blocks, j), n_classes, c)),
        ),
        block_points(blocks, n_classes, upto) == sum_of(
            Seq::new(upto as nat, |j: int| listed_points(distribution(blocks, j), n_classes)),
        ),
    decreases upto,
{
    if upto > 0 {
        law_tile_points_are_summed(blocks, n_classes, tile, c, upto - 1);
        let f = |j: int|
            if blocks[j].macro_tile_id == tile {
                entry_points(distribution(blocks, j), n_classes, c)
            } else {
                0
            };
        let g = |j: int| entry_points(distribution(blocks, j), n_classes, c);
        let h = |j: int| listed_points(distribution(blocks, j), n_classes);
        assert(Seq::new(upto as nat, f).drop_last() =~= Seq::new((upto - 1) as nat, f));
        assert(Seq::new(upto as nat, g).drop_last() =~= Seq::new((upto - 1) as nat, g));
        assert(Seq::new(upto as nat, h).drop_last() =~= Seq::new((upto - 1) as nat, h));
    }
}

/// The totals over all directories are the sums of the directories' totals.
pub proof fn law_directories_are_summed(
    manifests: Seq<&LabeledBlockManifest>,
    n_classes: int,
    c: int,
    dirs: int,
)
    requires
        0 <= dirs <= manifests.len(),
    ensures
        global_points(manifests, n_classes, c, dirs) == sum_of(
            Seq::new(
                dirs as nat,
                |d: int|
                    any_tile_points(
                        manifests[d].blocks@,
                        n_classes,
                        c,
                        manifests[d].blocks@.len() as int,
                    ),
            ),
        ),
        all_points(manifests, n_classes, dirs) == sum_of(
            Seq::new(
                dirs as nat,
                |d: int|
                    block_points(
                        manifests[d].blocks@,
                        n_classes,
                        manifests[d].blocks@.len() as int,
                    ),
            ),
        ),
    decreases dirs,
{
    if dirs > 0 {
        law_directories_are_summed(manifests, n_classes, c, dirs - 1);
        let f = |d: int|
            any_tile_points(
                manifests[d].blocks@,
                n_classes,
                c,
                manifests[d].blocks@.len() as int,
            );
        let g = |d: int|
            block_points(manifests[d].blocks@, n_classes, manifests[d].blocks@.len() as int);
        assert(Seq::new(dirs as nat, f).drop_last() =~= Seq::new((dirs - 1) as nat, f));
        assert(Seq::new(dirs as nat, g).drop_last() =~= Seq::new((dirs - 1) as nat, g));
    }
}

/// Each tile's count of a class is that of the blocks of its own directory that
/// carry its number, and its total is that of all its counts.
pub proof fn law_tiles_count_their_blocks(
    tiles: Seq<TileInfo>,
    manifests: Seq<&LabeledBlockManifest>,
    n_classes: int,
    keys: Seq<TileKey>,
    i: int,
    c: int,
)
    requires
        is_tile_stats(tiles, manifests, n_classes, keys),
        0 <= i < keys.len(),
        0 <= c < n_classes,
        keys[i].0 < manifests.len(),
    ensures
        tiles[i].key == keys[i],
        tiles[i].counts@.len() == n_classes,
        tiles[i].total == sum(tiles[i].counts@),
        tiles[i].counts@[c] == class_points(
            manifests[keys[i].0 as int].blocks@,
            n_classes,
            keys[i].1,
            c,
            manifests[keys[i].0 as int].blocks@.len() as int,
        ),
{
    assert(tiles[i].counts@[c] == tile_points(
        manifests,
        n_classes,
        keys[i],
        c,
        manifests.len() as int,
        0,
    ));
}

} // verus!
