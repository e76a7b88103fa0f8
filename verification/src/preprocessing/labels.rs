//! Labels of sampled blocks: collecting the raw classification bytes, mapping
//! them to model classes, and the labeled manifest.

use std::collections::HashMap;

use vstd::prelude::*;

use crate::counting::{lemma_places_step, lemma_selects_step, places, selects};
use crate::error::{pipeline_text, ClassifierError};
use crate::ieee::Real64;
use crate::ordering::{law_sorted_by, lemma_place_by, place_by, sorted_by};
use crate::preprocessing::labeled_pipeline::{
    compute_macro_tile_id, label_map_texts, law_macro_tiles_count_row_by_row, macro_tile, remap,
    remapped, spells, unassigned_index, LabeledBlockManifest, LabeledBlockMeta, SpatialTileGrid,
};
use crate::preprocessing::pipeline::{BlockManifest, BlockMeta, BlockProcessResult};
use crate::preprocessing::subset::lbl_name;
use crate::preprocessing::{block_id, block_number, law_block_ids_count_row_by_row};
use crate::text::{
    concat3, decimal, decimal5, decimal5_text, decimal_text, law_decimal_injective,
};
use crate::text_map::TextMap;

verus! {

// ── Raw classification bytes by block ───────────────────────────────────────

/// The raw classification bytes of the retained blocks, in stream order.
pub struct BlockClasses {
    places: HashMap<u64, usize>,
    classes: Vec<Vec<u8>>,
    grid_cols: u32,
    grid_rows: u32,
}

impl View for BlockClasses {
    type V = Map<u64, Seq<u8>>;

    closed spec fn view(&self) -> Map<u64, Seq<u8>> {
        Map::new(
            |id: u64| self.places@.dom().contains(id),
            |id: u64| self.classes@[self.places@[id] as int]@,
        )
    }
}

/// The IDs of the blocks.
pub open spec fn has_id(blocks: Seq<BlockMeta>, id: u64) -> bool {
    exists|i: int| 0 <= i < blocks.len() && (#[trigger] blocks[i]).id == id
}

/// Whether a cell lies in the grid.
pub open spec fn in_grid(col: int, row: int, grid_cols: u32, grid_rows: u32) -> bool {
    0 <= col < grid_cols && 0 <= row < grid_rows
}

impl BlockClasses {
    pub closed spec fn cols(self) -> u32 {
        self.grid_cols
    }

    pub closed spec fn rows(self) -> u32 {
        self.grid_rows
    }

    /// Every retained block has a place of its own.
    pub closed spec fn wf(self) -> bool {
        &&& forall|id: u64| #[trigger]
            self.places@.dom().contains(id) ==> self.places@[id] < self.classes@.len()
        &&& forall|a: u64, b: u64|
            #![trigger self.places@[a], self.places@[b]]
            self.places@.dom().contains(a) && self.places@.dom().contains(b) && a != b
                ==> self.places@[a] != self.places@[b]
    }

    /// Empty lists for the blocks of the manifest. A manifest without grid
    /// columns is too old.
    pub fn new(manifest: &BlockManifest) -> (r: Result<Self, ClassifierError>)
        ensures
            match r {
                Ok(c) => {
                    &&& manifest.grid_cols != 0
                    &&& c.wf()
                    &&& c.cols() == manifest.grid_cols
                    &&& c.rows() == manifest.grid_rows
                    &&& forall|id: u64| #[trigger]
                        c@.dom().contains(id) <==> has_id(manifest.blocks@, id)
                    &&& forall|id: u64| #[trigger] c@.dom().contains(id) ==> c@[id].len() == 0
                },
                Err(e) => manifest.grid_cols == 0 && e.text() == pipeline_text(
                    "blocks.json is missing grid_cols — re-run preprocessing to regenerate it"@,
                ),
            },
    {
        broadcast use vstd::std_specs::hash::group_hash_axioms;

        if manifest.grid_cols == 0 {
            return Err(
                ClassifierError::Pipeline(
                    "blocks.json is missing grid_cols — re-run preprocessing to regenerate it".to_owned(),
                ),
            );
        }
        let mut places: HashMap<u64, usize> = HashMap::new();
        let mut classes: Vec<Vec<u8>> = Vec::new();
        let mut i: usize = 0;
        while i < manifest.blocks.len()
            invariant
                i <= manifest.blocks@.len(),
                classes@.len() == i,
                forall|k: int| 0 <= k < i ==> (#[trigger] classes@[k])@.len() == 0,
                forall|id: u64| #[trigger] places@.dom().contains(id) ==> places@[id] < i,
                forall|id: u64| #[trigger]
                    places@.dom().contains(id) <==> has_id(manifest.blocks@.take(i as int), id),
                forall|a: u64, b: u64|
                    #![trigger places@[a], places@[b]]
                    places@.dom().contains(a) && places@.dom().contains(b) && a != b ==> places@[a]
                        != places@[b],
            decreases manifest.blocks@.len() - i,
        {
            let id: u64 = manifest.blocks[i].id;
            let ghost before = places@;
            places.insert(id, i);
            classes.push(Vec::new());
            proof {
                assert forall|k: u64| #[trigger] places@.dom().contains(k) <==> has_id(
                    manifest.blocks@.take(i + 1),
                    k,
                ) by {
                    let t0 = manifest.blocks@.take(i as int);
                    let t1 = manifest.blocks@.take(i + 1);
                    if has_id(t0, k) {
                        let m = choose|m: int| 0 <= m < t0.len() && (#[trigger] t0[m]).id == k;
                        assert(t1[m].id == k);
                    }
                    if k == id {
                        assert(t1[i as int].id == k);
                    }
                    if has_id(t1, k) && k != id {
                        let m = choose|m: int| 0 <= m < t1.len() && (#[trigger] t1[m]).id == k;
                        assert(t0[m].id == k);
                    }
                }
            }
            i = i + 1;
        }
        assert(manifest.blocks@.take(i as int) =~= manifest.blocks@);
        Ok(
            BlockClasses {
                places,
                classes,
                grid_cols: manifest.grid_cols,
                grid_rows: manifest.grid_rows,
            },
        )
    }

    /// Files the classification byte of a point in cell (`col`, `row`) under
    /// its block. Points outside the grid and points of blocks that were not
    /// retained are passed over.
    pub fn route_point(&mut self, col: i64, row: i64, classification: u8)
        requires
            old(self).wf(),
        ensures
            final(self).wf(),
            final(self).cols() == old(self).cols(),
            final(self).rows() == old(self).rows(),
            ({
                let id = block_number(row as int, col as int, old(self).cols() as int) as u64;
                if in_grid(col as int, row as int, old(self).cols(), old(self).rows()) && old(
                    self,
                )@.dom().contains(id) {
                    final(self)@ == old(self)@.insert(id, old(self)@[id].push(classification))
                } else {
                    final(self)@ == old(self)@
                }
            }),
    {
        broadcast use vstd::std_specs::hash::group_hash_axioms;

        if col < 0 || row < 0 || col >= self.grid_cols as i64 || row >= self.grid_rows as i64 {
            return;
        }
        let id: u64 = block_id(row, col, self.grid_cols as i64);
        match self.places.get(&id) {
            Some(p) => {
                let place: usize = *p;
                self.classes[place].push(classification);
                proof {
                    assert(self@ =~= old(self)@.insert(id, old(self)@[id].push(classification)));
                }
            },
            None => {},
        }
    }

    /// The bytes of a block, where it was retained.
    pub fn get(&self, id: u64) -> (r: Option<&Vec<u8>>)
        requires
            self.wf(),
        ensures
            match r {
                Some(v) => self@.dom().contains(id) && self@[id] == v@,
                None => !self@.dom().contains(id),
            },
    {
        broadcast use vstd::std_specs::hash::group_hash_axioms;

        match self.places.get(&id) {
            Some(p) => Some(&self.classes[*p]),
            None => None,
        }
    }
}

// ── Labels of one block ─────────────────────────────────────────────────────

/// The raw classification at position `i`; 0 beyond the end.
pub open spec fn raw_class(raw: Seq<u8>, i: usize) -> u8 {
    if i < raw.len() {
        raw[i as int]
    } else {
        0
    }
}

/// The label of each row of a block: the core rows, then the halo rows.
pub open spec fn block_labels(p: BlockProcessResult, raw: Seq<u8>, map: Map<u8, u8>) -> Seq<u8> {
    let un = unassigned_index(map);
    Seq::new(
        p.sampled_indices@.len(),
        |i: int| remapped(raw_class(raw, p.sampled_indices@[i]), map, un),
    ) + Seq::new(
        p.halo_classifications@.len(),
        |i: int| remapped(p.halo_classifications@[i], map, un),
    )
}

/// Whether every point of a block, sampled or not, carries code 0 (never
/// classified).
pub open spec fn never_classified(raw: Seq<u8>) -> bool {
    forall|i: int| 0 <= i < raw.len() ==> #[trigger] raw[i] == 0
}

fn is_never_classified(raw: &Vec<u8>) -> (r: bool)
    ensures
        r == never_classified(raw@),
{
    let mut i: usize = 0;
    while i < raw.len()
        invariant
            i <= raw@.len(),
            forall|k: int| 0 <= k < i ==> #[trigger] raw@[k] == 0,
        decreases raw@.len() - i,
    {
        if raw[i] != 0 {
            return false;
        }
        i = i + 1;
    }
    true
}

/// How often `l` occurs.
pub open spec fn occurrences(labels: Seq<u8>, l: u8) -> nat
    decreases labels.len(),
{
    if labels.len() == 0 {
        0
    } else {
        occurrences(labels.drop_last(), l) + if labels.last() == l {
            1nat
        } else {
            0nat
        }
    }
}

/// `d` counts the labels: each label that occurs, in decimal notation, with
/// how often it does.
pub open spec fn counts_labels(d: Map<Seq<char>, u64>, labels: Seq<u8>) -> bool {
    &&& forall|l: u8|
        occurrences(labels, l) > 0 ==> d.dom().contains(#[trigger] decimal(l as nat))
            && d[decimal(l as nat)] == occurrences(labels, l)
    &&& forall|k: Seq<char>| #[trigger]
        d.dom().contains(k) ==> exists|l: u8|
            occurrences(labels, l) > 0 && k == #[trigger] decimal(l as nat)
}

proof fn lemma_occurrences_bound(labels: Seq<u8>, l: u8)
    ensures
        occurrences(labels, l) <= labels.len(),
    decreases labels.len(),
{
    if labels.len() > 0 {
        lemma_occurrences_bound(labels.drop_last(), l);
    }
}

/// How many of the labels are below `upto`, by the distribution.
pub open spec fn distributed(d: Map<Seq<char>, u64>, upto: int) -> int
    decreases upto,
{
    if upto <= 0 {
        0
    } else {
        distributed(d, upto - 1) + if d.dom().contains(decimal((upto - 1) as nat)) {
            d[decimal((upto - 1) as nat)] as int
        } else {
            0
        }
    }
}

spec fn occurring(labels: Seq<u8>, upto: int) -> int
    decreases upto,
{
    if upto <= 0 {
        0
    } else {
        occurring(labels, upto - 1) + occurrences(labels, (upto - 1) as u8)
    }
}

proof fn lemma_occurring(labels: Seq<u8>, upto: int)
    requires
        0 <= upto <= 256,
    ensures
        labels.len() == 0 ==> occurring(labels, upto) == 0,
        labels.len() > 0 ==> occurring(labels, upto) == occurring(labels.drop_last(), upto) + if (
        labels.last() < upto) {
            1int
        } else {
            0
        },
    decreases upto,
{
    if upto > 0 {
        lemma_occurring(labels, upto - 1);
    }
}

proof fn lemma_all_occur(labels: Seq<u8>)
    ensures
        occurring(labels, 256) == labels.len(),
    decreases labels.len(),
{
    lemma_occurring(labels, 256);
    if labels.len() > 0 {
        lemma_all_occur(labels.drop_last());
    }
}

proof fn lemma_distributed(d: Map<Seq<char>, u64>, labels: Seq<u8>, upto: int)
    requires
        counts_labels(d, labels),
        0 <= upto <= 256,
    ensures
        distributed(d, upto) == occurring(labels, upto),
    decreases upto,
{
    if upto > 0 {
        lemma_distributed(d, labels, upto - 1);
        let l = (upto - 1) as u8;
        let k = decimal(l as nat);
        if occurrences(labels, l) == 0 && d.dom().contains(k) {
            let m = choose|m: u8| occurrences(labels, m) > 0 && k == #[trigger] decimal(m as nat);
            law_decimal_injective(m as nat, l as nat);
        }
    }
}

/// The counts of a class distribution add up to the number of labels, which is
/// the number of bytes of the label file.
pub proof fn law_distribution_adds_up(d: Map<Seq<char>, u64>, labels: Seq<u8>)
    requires
        counts_labels(d, labels),
    ensures
        distributed(d, 256) == labels.len(),
{
    lemma_distributed(d, labels, 256);
    lemma_all_occur(labels);
}

fn tally(labels: &Vec<u8>) -> (r: Vec<u64>)
    ensures
        r@.len() == 256,
        forall|l: u8| (#[trigger] r@[l as int]) == occurrences(labels@, l),
{
    let mut out: Vec<u64> = Vec::new();
    let mut z: usize = 0;
    while z < 256
        invariant
            z <= 256,
            out@.len() == z,
            forall|k: int| 0 <= k < z ==> #[trigger] out@[k] == 0,
        decreases 256 - z,
    {
        out.push(0);
        z = z + 1;
    }
    let mut i: usize = 0;
    assert(labels@.take(0) =~= Seq::empty());
    while i < labels.len()
        invariant
            i <= labels@.len(),
            out@.len() == 256,
            forall|l: u8| (#[trigger] out@[l as int]) == occurrences(labels@.take(i as int), l),
        decreases labels@.len() - i,
    {
        let l: u8 = labels[i];
        let ghost before = out@;
        proof {
            assert(labels@.take(i + 1).drop_last() =~= labels@.take(i as int));
            assert(labels@.take(i + 1).last() == l);
            lemma_occurrences_bound(labels@.take(i as int), l);
            assert(labels@.len() == labels.len());
            assert(before[l as int] <= i);
        }
        let n: u64 = out[l as usize];
        out.set(l as usize, n + 1);
        assert forall|m: u8| (#[trigger] out@[m as int]) == occurrences(
            labels@.take(i + 1),
            m,
        ) by {
            assert(before[m as int] == occurrences(labels@.take(i as int), m));
        }
        i = i + 1;
    }
    assert(labels@.take(i as int) =~= labels@);
    out
}

/// The class distribution of a block.
pub fn class_distribution(labels: &Vec<u8>) -> (r: TextMap<u64>)
    ensures
        counts_labels(r@, labels@),
{
    let counts = tally(labels);
    let mut out: TextMap<u64> = TextMap::new();
    let mut i: u16 = 0;
    while i < 256
        invariant
            i <= 256,
            counts@.len() == 256,
            forall|l: u8| (#[trigger] counts@[l as int]) == occurrences(labels@, l),
            forall|l: u8|
                l < i && occurrences(labels@, l) > 0 ==> out@.dom().contains(
                    #[trigger] decimal(l as nat),
                ) && out@[decimal(l as nat)] == occurrences(labels@, l),
            forall|k: Seq<char>| #[trigger]
                out@.dom().contains(k) ==> exists|l: u8|
                    l < i && occurrences(labels@, l) > 0 && k == #[trigger] decimal(l as nat),
        decreases 256 - i,
    {
        let l: u8 = i as u8;
        assert(counts@[l as int] == occurrences(labels@, l));
        let ghost before = out@;
        if counts[i as usize] > 0 {
            let name = decimal_text(l as u64);
            out.insert(name.as_str(), counts[i as usize]);
            assert forall|m: u8| m < i + 1 && occurrences(labels@, m) > 0 implies out@.dom().contains(
                #[trigger] decimal(m as nat),
            ) && out@[decimal(m as nat)] == occurrences(labels@, m) by {
                if m != l && decimal(m as nat) == decimal(l as nat) {
                    law_decimal_injective(m as nat, l as nat);
                }
            }
        }
        assert forall|k: Seq<char>| #[trigger] out@.dom().contains(k) implies exists|m: u8|
            m < i + 1 && occurrences(labels@, m) > 0 && k == #[trigger] decimal(m as nat) by {
            if before.dom().contains(k) {
                let m = choose|m: u8|
                    m < i && occurrences(labels@, m) > 0 && k == #[trigger] decimal(m as nat);
                assert(m < i + 1 && occurrences(labels@, m) > 0 && k == decimal(m as nat));
            } else {
                assert(k == decimal(l as nat));
            }
        }
        i = i + 1;
    }
    out
}

/// The labels of one block; none where it was never classified.
pub fn label_block(p: &BlockProcessResult, raw: &Vec<u8>, map: &HashMap<u8, u8>) -> (r: Option<
    Vec<u8>,
>)
    ensures
        match r {
            Some(l) => !never_classified(raw@) && l@ == block_labels(*p, raw@, map@),
            None => never_classified(raw@),
        },
{
    if is_never_classified(raw) {
        return None;
    }
    let ghost un = unassigned_index(map@);
    let unassigned: u8 = remap(1, map, 7);
    let mut labels: Vec<u8> = Vec::new();
    let mut i: usize = 0;
    while i < p.sampled_indices.len()
        invariant
            i <= p.sampled_indices@.len(),
            unassigned == un,
            labels@.len() == i,
            forall|k: int|
                0 <= k < i ==> #[trigger] labels@[k] == remapped(
                    raw_class(raw@, p.sampled_indices@[k]),
                    map@,
                    un,
                ),
        decreases p.sampled_indices@.len() - i,
    {
        let at: usize = p.sampled_indices[i];
        assert(p.sampled_indices@[i as int] == at);
        let code: u8 = if at < raw.len() {
            raw[at]
        } else {
            0
        };
        labels.push(remap(code, map, unassigned));
        i = i + 1;
    }
    let ghost core = labels@;
    let mut j: usize = 0;
    while j < p.halo_classifications.len()
        invariant
            j <= p.halo_classifications@.len(),
            unassigned == un,
            labels@ =~= core + Seq::new(
                j as nat,
                |k: int| remapped(p.halo_classifications@[k], map@, un),
            ),
        decreases p.halo_classifications@.len() - j,
    {
        labels.push(remap(p.halo_classifications[j], map, unassigned));
        j = j + 1;
    }
    assert(labels@ =~= block_labels(*p, raw@, map@));
    Some(labels)
}

// ── All blocks ──────────────────────────────────────────────────────────────

/// A labeled block: its manifest entry and the contents of its label file.
#[derive(Debug)]
pub struct LabeledBlock {
    pub meta: LabeledBlockMeta,
    pub labels: Vec<u8>,
}

/// Labeled blocks are ordered by their IDs.
pub open spec fn id_key() -> spec_fn(LabeledBlock) -> int {
    |b: LabeledBlock| b.meta.meta.id as int
}

/// Whether a block is kept: its classification bytes were collected, and it is
/// not one that was never classified.
pub open spec fn is_kept(p: BlockProcessResult, classes: Map<u64, Seq<u8>>) -> bool {
    classes.dom().contains(p.meta.id) && !never_classified(classes[p.meta.id])
}

/// The positions among the first `n` blocks that are kept.
pub open spec fn kept(
    results: Seq<BlockProcessResult>,
    classes: Map<u64, Seq<u8>>,
    n: int,
) -> Seq<int>
    decreases n,
{
    if n <= 0 {
        Seq::empty()
    } else if is_kept(results[n - 1], classes) {
        kept(results, classes, n - 1).push(n - 1)
    } else {
        kept(results, classes, n - 1)
    }
}

/// `b` is the labeled form of the block `p` in tile cell `cell`.
pub open spec fn is_labeled(
    b: LabeledBlock,
    p: BlockProcessResult,
    raw: Seq<u8>,
    map: Map<u8, u8>,
    cell: (i64, i64),
    tile_grid: usize,
) -> bool {
    &&& b.labels@ == block_labels(p, raw, map)
    &&& b.meta.meta.same(p.meta)
    &&& b.meta.lbl_file@ == lbl_name(p.meta.id as nat)
    &&& b.meta.macro_tile_id == macro_tile(cell.0 as int, cell.1 as int, tile_grid as int)
    &&& counts_labels(b.meta.class_distribution@, b.labels@)
}

/// The labeled forms of the kept blocks among the first `n`, in their order.
pub open spec fn labels_kept(
    made: Seq<LabeledBlock>,
    results: Seq<BlockProcessResult>,
    classes: Map<u64, Seq<u8>>,
    map: Map<u8, u8>,
    cells: Seq<(i64, i64)>,
    tile_grid: usize,
    n: int,
) -> bool {
    let ks = kept(results, classes, n);
    &&& made.len() == ks.len()
    &&& forall|j: int|
        0 <= j < made.len() ==> is_labeled(
            #[trigger] made[j],
            results[ks[j]],
            classes[results[ks[j]].meta.id],
            map,
            cells[ks[j]],
            tile_grid,
        )
}

fn insert_by_id(v: &mut Vec<LabeledBlock>, b: LabeledBlock)
    ensures
        final(v)@ == old(v)@.insert(place_by(old(v)@, id_key(), b), b),
{
    let mut p: usize = v.len();
    assert(v@.take(p as int) =~= v@);
    while p > 0 && v[p - 1].meta.meta.id > b.meta.meta.id
        invariant
            p <= v@.len(),
            v@ == old(v)@,
            place_by(v@, id_key(), b) == place_by(v@.take(p as int), id_key(), b),
        decreases p,
    {
        assert(v@.take(p as int).drop_last() =~= v@.take(p - 1));
        assert(v@.take(p as int).last() == v@[p - 1]);
        p = p - 1;
    }
    proof {
        if p > 0 {
            assert(v@.take(p as int).last() == v@[p - 1]);
        }
        assert(place_by(v@, id_key(), b) == p);
    }
    v.insert(p, b);
}

/// Labels the blocks and puts them in the order of their IDs. Blocks whose
/// points all carry code 0 are dropped. `cells` holds for each block the
/// column and row of its macro-tile; the IDs of the tiles of kept blocks have
/// to fit 32 bits.
pub fn label_blocks(
    results: &Vec<BlockProcessResult>,
    classes: &BlockClasses,
    map: &HashMap<u8, u8>,
    cells: &Vec<(i64, i64)>,
    tile_grid: usize,
) -> (r: Vec<LabeledBlock>)
    requires
        classes.wf(),
        cells@.len() == results@.len(),
        0 < tile_grid,
        forall|i: int|
            0 <= i < results@.len() && is_kept(results@[i], classes@) ==> macro_tile(
                (#[trigger] cells@[i]).0 as int,
                cells@[i].1 as int,
                tile_grid as int,
            ) <= u32::MAX,
    ensures
        exists|made: Seq<LabeledBlock>| #[trigger]
            labels_kept(
                made,
                results@,
                classes@,
                map@,
                cells@,
                tile_grid,
                results@.len() as int,
            ) && r@ == sorted_by(made, id_key()),
{
    let mut out: Vec<LabeledBlock> = Vec::new();
    let ghost mut made: Seq<LabeledBlock> = Seq::empty();
    let mut i: usize = 0;
    while i < results.len()
        invariant
            i <= results@.len(),
            classes.wf(),
            cells@.len() == results@.len(),
            0 < tile_grid,
            forall|k: int|
                0 <= k < results@.len() && is_kept(results@[k], classes@) ==> macro_tile(
                    (#[trigger] cells@[k]).0 as int,
                    cells@[k].1 as int,
                    tile_grid as int,
                ) <= u32::MAX,
            labels_kept(made, results@, classes@, map@, cells@, tile_grid, i as int),
            out@ == sorted_by(made, id_key()),
        decreases results@.len() - i,
    {
        let p = &results[i];
        let cell: (i64, i64) = cells[i];
        match classes.get(p.meta.id) {
            Some(raw) => {
                match label_block(p, raw, map) {
                    Some(labels) => {
                        let number = decimal5_text(p.meta.id);
                        let meta = LabeledBlockMeta {
                            meta: p.meta.clone(),
                            lbl_file: concat3("block_", number.as_str(), ".lbl"),
                            macro_tile_id: compute_macro_tile_id(cell.0, cell.1, tile_grid),
                            class_distribution: class_distribution(&labels),
                        };
                        let b = LabeledBlock { meta, labels };
                        let ghost before = made;
                        proof {
                            made = made.push(b);
                            assert(made.drop_last() =~= before);
                            lemma_place_by(out@, id_key(), b);
                            let ks = kept(results@, classes@, i as int);
                            let ks1 = kept(results@, classes@, i + 1);
                            assert(ks1 =~= ks.push(i as int));
                            assert forall|j: int| 0 <= j < made.len() implies is_labeled(
                                #[trigger] made[j],
                                results@[ks1[j]],
                                classes@[results@[ks1[j]].meta.id],
                                map@,
                                cells@[ks1[j]],
                                tile_grid,
                            ) by {
                                if j < before.len() {
                                    assert(made[j] == before[j]);
                                }
                            }
                        }
                        insert_by_id(&mut out, b);
                    },
                    None => {},
                }
            },
            None => {},
        }
        i = i + 1;
    }
    assert(labels_kept(
        made,
        results@,
        classes@,
        map@,
        cells@,
        tile_grid,
        results@.len() as int,
    ));
    out
}

/// The labeled manifest: the settings of the base manifest, with the label
/// map, the tile grid and the labeled blocks.
pub fn labeled_manifest(
    base: &BlockManifest,
    search_radii: Vec<Real64>,
    map: &HashMap<u8, u8>,
    grid: SpatialTileGrid,
    blocks: Vec<LabeledBlockMeta>,
) -> (r: LabeledBlockManifest)
    ensures
        r.source@ == base.source@,
        r.block_size == base.block_size,
        r.target_points == base.target_points,
        r.min_density == base.min_density,
        r.search_radius == base.search_radius,
        r.search_radii == search_radii,
        r.min_neighbors == base.min_neighbors,
        r.crs_epsg == base.crs_epsg,
        spells(r.label_map@, map@),
        r.spatial_tile_grid == grid,
        r.halo_fraction == base.halo_fraction,
        r.blocks == blocks,
{
    LabeledBlockManifest {
        source: base.source.clone(),
        block_size: base.block_size,
        target_points: base.target_points,
        min_density: base.min_density,
        search_radius: base.search_radius,
        search_radii,
        min_neighbors: base.min_neighbors,
        crs_epsg: base.crs_epsg,
        label_map: label_map_texts(map),
        spatial_tile_grid: grid,
        halo_fraction: base.halo_fraction,
        blocks,
    }
}

// ── What labels are ─────────────────────────────────────────────────────────

/// Each row gets the class that the map gives its code. A code that the map
/// does not have is treated as code 1 (Unassigned), and as class 7 where the map
/// does not have that either. A core row's code stands at its place in the
/// block, and is 0 where the block has no such place.
pub proof fn law_rows_get_their_class(p: BlockProcessResult, raw: Seq<u8>, map: Map<u8, u8>, i: int)
    requires
        0 <= i < p.sampled_indices@.len() + p.halo_classifications@.len(),
    ensures
        block_labels(p, raw, map).len() == p.sampled_indices@.len()
            + p.halo_classifications@.len(),
        ({
            let core = p.sampled_indices@.len() as int;
            let code: u8 = if i >= core {
                p.halo_classifications@[i - core]
            } else if p.sampled_indices@[i] < raw.len() {
                raw[p.sampled_indices@[i] as int]
            } else {
                0
            };
            let label = block_labels(p, raw, map)[i];
            &&& map.dom().contains(code) ==> label == map[code]
            &&& !map.dom().contains(code) && map.dom().contains(1) ==> label == map[1]
            &&& !map.dom().contains(code) && !map.dom().contains(1) ==> label == 7
        }),
{
}

/// Where the map has a class for code 1, every label of a block is one of the
/// map's classes.
pub proof fn law_labels_are_classes_of_the_map(
    p: BlockProcessResult,
    raw: Seq<u8>,
    map: Map<u8, u8>,
    i: int,
)
    requires
        map.dom().contains(1),
        0 <= i < block_labels(p, raw, map).len(),
    ensures
        exists|code: u8| #[trigger]
            map.dom().contains(code) && map[code] == block_labels(p, raw, map)[i],
{
    law_rows_get_their_class(p, raw, map, i);
    assert(map.dom().contains(1u8));
}

/// A label is counted as often as it occurs.
pub proof fn law_occurrences(labels: Seq<u8>, l: u8)
    ensures
        occurrences(labels, l) == places(|i: int| labels[i] == l, labels.len() as int).len(),
    decreases labels.len(),
{
    let p = |i: int| labels[i] == l;
    lemma_places_step(p, labels.len() as int);
    if labels.len() > 0 {
        let d = labels.drop_last();
        law_occurrences(d, l);
        assert(places(|i: int| d[i] == l, d.len() as int) =~= places(p, d.len() as int));
    }
}

proof fn lemma_kept(results: Seq<BlockProcessResult>, classes: Map<u64, Seq<u8>>, n: int)
    requires
        0 <= n <= results.len(),
    ensures
        selects(kept(results, classes, n), |i: int| is_kept(results[i], classes), n),
    decreases n,
{
    let p = |i: int| is_kept(results[i], classes);
    if n > 0 {
        lemma_kept(results, classes, n - 1);
        lemma_selects_step(kept(results, classes, n - 1), p, n - 1);
    } else {
        assert(selects(Seq::<int>::empty(), p, 0));
    }
}

/// The blocks that are labelled are those with a point whose code is not 0, and
/// each of them is labelled once: its entry carries its ID, its labels and how
/// often each occurs.
pub proof fn law_classified_blocks_are_labelled(
    made: Seq<LabeledBlock>,
    results: Seq<BlockProcessResult>,
    classes: Map<u64, Seq<u8>>,
    map: Map<u8, u8>,
    cells: Seq<(i64, i64)>,
    tile_grid: usize,
    i: int,
)
    requires
        labels_kept(made, results, classes, map, cells, tile_grid, results.len() as int),
        0 <= i < results.len(),
    ensures
        made.len() == places(
            |k: int|
                classes.dom().contains(results[k].meta.id) && exists|q: int|
                    0 <= q < classes[results[k].meta.id].len()
                        && #[trigger] classes[results[k].meta.id][q] != 0,
            results.len() as int,
        ).len(),
        classes.dom().contains(results[i].meta.id) && (exists|q: int|
            0 <= q < classes[results[i].meta.id].len()
                && #[trigger] classes[results[i].meta.id][q] != 0) ==> exists|j: int|
            0 <= j < made.len() && (#[trigger] made[j]).meta.meta.id == results[i].meta.id
                && made[j].labels@ == block_labels(results[i], classes[results[i].meta.id], map)
                && counts_labels(made[j].meta.class_distribution@, made[j].labels@),
{
    let n = results.len() as int;
    let ks = kept(results, classes, n);
    lemma_kept(results, classes, n);
    let p = |k: int| is_kept(results[k], classes);
    let q = |k: int|
        classes.dom().contains(results[k].meta.id) && exists|q: int|
            0 <= q < classes[results[k].meta.id].len()
                && #[trigger] classes[results[k].meta.id][q] != 0;
    lemma_kept_number(results, classes, n);
    assert(places(p, n) =~= places(q, n));
    if is_kept(results[i], classes) {
        assert(ks.contains(i));
        let j = choose|j: int| 0 <= j < ks.len() && ks[j] == i;
        assert(is_labeled(
            made[j],
            results[ks[j]],
            classes[results[ks[j]].meta.id],
            map,
            cells[ks[j]],
            tile_grid,
        ));
    }
}

proof fn lemma_kept_number(results: Seq<BlockProcessResult>, classes: Map<u64, Seq<u8>>, n: int)
    requires
        0 <= n <= results.len(),
    ensures
        kept(results, classes, n).len() == places(
            |i: int| is_kept(results[i], classes),
            n,
        ).len(),
    decreases n,
{
    lemma_places_step(|i: int| is_kept(results[i], classes), n);
    if n > 0 {
        lemma_kept_number(results, classes, n - 1);
    }
}

/// Labelled blocks are put in the order of their numbers; none is lost.
pub proof fn law_labelled_blocks_ascend(blocks: Seq<LabeledBlock>, i: int, j: int)
    requires
        0 <= i < j < blocks.len(),
    ensures
        ({
            let r = sorted_by(blocks, id_key());
            &&& r.len() == blocks.len()
            &&& r.to_multiset() == blocks.to_multiset()
            &&& r[i].meta.meta.id <= r[j].meta.meta.id
        }),
{
    broadcast use vstd::seq_lib::group_to_multiset_ensures;

    let r = sorted_by(blocks, id_key());
    law_sorted_by(blocks, id_key());
    assert(r.len() == blocks.len()) by {
        assert(r.to_multiset().len() == blocks.to_multiset().len());
    }
    assert(id_key()(r[i]) <= id_key()(r[j]));
}

/// Every labelled block is that of a result that was kept, in their order, with
/// all that the result says of it. Its label file carries its number, and its
/// tile is that of its cell. The returned sequence gives the places of the
/// results.
pub proof fn law_labelled_blocks_keep_their_place(
    made: Seq<LabeledBlock>,
    results: Seq<BlockProcessResult>,
    classes: Map<u64, Seq<u8>>,
    map: Map<u8, u8>,
    cells: Seq<(i64, i64)>,
    tile_grid: usize,
) -> (at: Seq<int>)
    requires
        labels_kept(made, results, classes, map, cells, tile_grid, results.len() as int),
        0 < tile_grid,
    ensures
        selects(
            at,
            |k: int|
                classes.dom().contains(results[k].meta.id) && exists|q: int|
                    0 <= q < classes[results[k].meta.id].len()
                        && #[trigger] classes[results[k].meta.id][q] != 0,
            results.len() as int,
        ),
        made.len() == at.len(),
        forall|j: int|
            0 <= j < at.len() ==> {
                let b = (#[trigger] made[j]).meta;
                let p = results[at[j]].meta;
                let col = cells[at[j]].0;
                let row = cells[at[j]].1;
                &&& b.meta.id == p.id
                &&& b.meta.file@ == p.file@
                &&& b.meta.origin_x == p.origin_x
                &&& b.meta.origin_y == p.origin_y
                &&& b.meta.raw_point_count == p.raw_point_count
                &&& b.meta.sampled_point_count == p.sampled_point_count
                &&& b.meta.oversampled == p.oversampled
                &&& b.meta.n_halo == p.n_halo
                &&& b.lbl_file@ == "block_"@ + decimal5(p.id as nat) + ".lbl"@
                &&& 0 <= col < tile_grid && 0 <= row < tile_grid ==> b.macro_tile_id as int
                    / tile_grid as int == row && b.macro_tile_id as int % tile_grid as int == col
            },
{
    let n = results.len() as int;
    let at = kept(results, classes, n);
    lemma_kept(results, classes, n);
    let p = |k: int| is_kept(results[k], classes);
    let q = |k: int|
        classes.dom().contains(results[k].meta.id) && exists|q: int|
            0 <= q < classes[results[k].meta.id].len()
                && #[trigger] classes[results[k].meta.id][q] != 0;
    assert(selects(at, q, n)) by {
        assert forall|i: int| #[trigger] at.contains(i) <==> 0 <= i < n && q(i) by {
            assert(at.contains(i) <==> 0 <= i < n && p(i));
        }
    }
    assert forall|j: int| 0 <= j < at.len() implies is_labeled(
        #[trigger] made[j],
        results[at[j]],
        classes[results[at[j]].meta.id],
        map,
        cells[at[j]],
        tile_grid,
    ) by {}
    assert forall|j: int|
        0 <= j < at.len() && 0 <= cells[at[j]].0 < tile_grid && 0 <= cells[at[j]].1
            < tile_grid implies (#[trigger] made[j]).meta.macro_tile_id as int / tile_grid as int
        == cells[at[j]].1 && made[j].meta.macro_tile_id as int % tile_grid as int
        == cells[at[j]].0 by {
        law_macro_tiles_count_row_by_row(
            cells[at[j]].0 as int,
            cells[at[j]].1 as int,
            tile_grid as int,
        );
    }
    at
}

/// The cells of the grid, and no others, have the blocks that are numbered row
/// by row.
pub proof fn law_cells_of_the_grid(col: int, row: int, grid_cols: u32, grid_rows: u32)
    requires
        0 < grid_cols,
        0 < grid_rows,
    ensures
        in_grid(col, row, grid_cols, grid_rows) ==> block_number(row, col, grid_cols as int)
            / grid_cols as int == row && block_number(row, col, grid_cols as int)
            % grid_cols as int == col && block_number(row, col, grid_cols as int) < grid_cols
            * grid_rows,
        !in_grid(col, row, grid_cols, grid_rows) ==> col < 0 || row < 0 || col >= grid_cols || row
            >= grid_rows,
{
    if in_grid(col, row, grid_cols, grid_rows) {
        law_block_ids_count_row_by_row(row, col, grid_cols as int, grid_rows as int);
    }
}

} // verus!
