//! Materialising one subset of a split: which files are copied under which
//! names, and the manifest of the result.
//!
//! Blocks are renumbered in the order of their input directory and original
//! ID, so that blocks of different inputs never collide.

use vstd::prelude::*;

use crate::counting::{lemma_selects_step, selects};
use crate::error::{pipeline_text, ClassifierError};
use crate::ieee::Real64;
use crate::preprocessing::dataset_split::{BlockRef, MultiThreeWaySplit};
use crate::preprocessing::labeled_pipeline::{LabeledBlockManifest, LabeledBlockMeta};
use crate::preprocessing::pipeline::BlockMeta;
use crate::preprocessing::tile_counts::{last_places, last_with_id, law_last_block_with_an_id};
use crate::preprocessing::{bad_name_message, is_bare_name, validate_block_filename};
use crate::text::{
    concat3, concat5, decimal, decimal5, decimal5_text, decimal_text, law_decimal5_injective,
};

use std::collections::HashMap;

verus! {

// ── Order ───────────────────────────────────────────────────────────────────

/// Lexicographic order of block references.
pub open spec fn ref_le(a: BlockRef, b: BlockRef) -> bool {
    a.0 < b.0 || (a.0 == b.0 && a.1 <= b.1)
}

/// In ascending order.
pub open spec fn refs_ascend(s: Seq<BlockRef>) -> bool {
    forall|i: int, j: int|
        0 <= i <= j < s.len() ==> ref_le(#[trigger] s[i], #[trigger] s[j])
}

fn le(a: BlockRef, b: BlockRef) -> (r: bool)
    ensures
        r == ref_le(a, b),
{
    a.0 < b.0 || (a.0 == b.0 && a.1 <= b.1)
}

proof fn lemma_take_multiset(s: Seq<BlockRef>, i: int)
    requires
        0 <= i < s.len(),
    ensures
        s.take(i + 1).to_multiset() == s.take(i).to_multiset().insert(s[i]),
{
    assert(s.take(i + 1) =~= s.take(i).push(s[i]));
    vstd::seq_lib::to_multiset_build(s.take(i), s[i]);
}

fn merge(a: &Vec<BlockRef>, b: &Vec<BlockRef>) -> (r: Vec<BlockRef>)
    requires
        refs_ascend(a@),
        refs_ascend(b@),
    ensures
        refs_ascend(r@),
        r@.to_multiset() == a@.to_multiset().add(b@.to_multiset()),
{
    let mut out: Vec<BlockRef> = Vec::new();
    let mut i: usize = 0;
    let mut j: usize = 0;
    proof {
        assert(a@.take(0) =~= Seq::empty());
        assert(b@.take(0) =~= Seq::empty());
        assert(out@ =~= Seq::empty());
        vstd::seq_lib::to_multiset_len(out@);
        assert(out@.to_multiset() =~= out@.to_multiset().add(out@.to_multiset()));
    }
    while i < a.len() || j < b.len()
        invariant
            i <= a@.len(),
            j <= b@.len(),
            refs_ascend(a@),
            refs_ascend(b@),
            refs_ascend(out@),
            out@.to_multiset() == a@.take(i as int).to_multiset().add(
                b@.take(j as int).to_multiset(),
            ),
            forall|k: int, m: int|
                0 <= k < out@.len() && i <= m < a@.len() ==> ref_le(
                    #[trigger] out@[k],
                    #[trigger] a@[m],
                ),
            forall|k: int, m: int|
                0 <= k < out@.len() && j <= m < b@.len() ==> ref_le(
                    #[trigger] out@[k],
                    #[trigger] b@[m],
                ),
        decreases a@.len() - i + b@.len() - j,
    {
        let ghost before = out@;
        if j >= b.len() || (i < a.len() && le(a[i], b[j])) {
            out.push(a[i]);
            proof {
                lemma_take_multiset(a@, i as int);
                vstd::seq_lib::to_multiset_build(before, a@[i as int]);
                assert(out@.to_multiset() =~= a@.take(i + 1).to_multiset().add(
                    b@.take(j as int).to_multiset(),
                ));
            }
            i = i + 1;
        } else {
            out.push(b[j]);
            proof {
                lemma_take_multiset(b@, j as int);
                vstd::seq_lib::to_multiset_build(before, b@[j as int]);
                assert(out@.to_multiset() =~= a@.take(i as int).to_multiset().add(
                    b@.take(j + 1).to_multiset(),
                ));
            }
            j = j + 1;
        }
    }
    assert(a@.take(i as int) =~= a@);
    assert(b@.take(j as int) =~= b@);
    out
}

fn slice_of(v: &Vec<BlockRef>, from: usize, to: usize) -> (r: Vec<BlockRef>)
    requires
        from <= to <= v@.len(),
    ensures
        r@ == v@.subrange(from as int, to as int),
{
    let mut out: Vec<BlockRef> = Vec::new();
    let mut i: usize = from;
    while i < to
        invariant
            from <= i <= to <= v@.len(),
            out@ =~= v@.subrange(from as int, i as int),
        decreases to - i,
    {
        out.push(v[i]);
        i = i + 1;
    }
    out
}

/// The references in ascending order.
pub fn sort_refs(refs: &Vec<BlockRef>) -> (r: Vec<BlockRef>)
    ensures
        refs_ascend(r@),
        r@.to_multiset() == refs@.to_multiset(),
    decreases refs@.len(),
{
    let n: usize = refs.len();
    if n <= 1 {
        let r = slice_of(refs, 0, n);
        assert(r@ =~= refs@);
        return r;
    }
    let mid: usize = n / 2;
    let a = slice_of(refs, 0, mid);
    let b = slice_of(refs, mid, n);
    let x = sort_refs(&a);
    let y = sort_refs(&b);
    proof {
        assert(a@ + b@ =~= refs@);
        vstd::seq_lib::lemma_multiset_commutative(a@, b@);
    }
    merge(&x, &y)
}

/// The order is the only one: two ascending lists of the same references are
/// the same.
pub proof fn law_order_is_unique(a: Seq<BlockRef>, b: Seq<BlockRef>)
    requires
        refs_ascend(a),
        refs_ascend(b),
        a.to_multiset() == b.to_multiset(),
    ensures
        a == b,
    decreases a.len(),
{
    vstd::seq_lib::to_multiset_len(a);
    vstd::seq_lib::to_multiset_len(b);
    if a.len() > 0 {
        broadcast use vstd::seq_lib::group_to_multiset_ensures;

        let x = a.last();
        let y = b.last();
        assert(a.contains(x)) by {
            assert(a[a.len() - 1] == x);
        }
        assert(b.contains(y)) by {
            assert(b[b.len() - 1] == y);
        }
        assert(b.to_multiset().count(x) > 0);
        assert(a.to_multiset().count(y) > 0);
        assert(b.contains(x));
        assert(a.contains(y));
        let i = choose|i: int| 0 <= i < b.len() && b[i] == x;
        let j = choose|j: int| 0 <= j < a.len() && a[j] == y;
        assert(ref_le(b[i], b[b.len() - 1]));
        assert(ref_le(a[j], a[a.len() - 1]));
        assert(x == y);
        let c = a.drop_last();
        let d = b.drop_last();
        assert(a =~= c.push(x));
        assert(b =~= d.push(x));
        assert(c.to_multiset() =~= a.to_multiset().remove(x)) by {
            assert(a.remove(a.len() - 1) =~= c);
        }
        assert(d.to_multiset() =~= b.to_multiset().remove(x)) by {
            assert(b.remove(b.len() - 1) =~= d);
        }
        assert(refs_ascend(c)) by {
            assert forall|p: int, q: int| 0 <= p <= q < c.len() implies ref_le(
                #[trigger] c[p],
                #[trigger] c[q],
            ) by {
                assert(ref_le(a[p], a[q]));
            }
        }
        assert(refs_ascend(d)) by {
            assert forall|p: int, q: int| 0 <= p <= q < d.len() implies ref_le(
                #[trigger] d[p],
                #[trigger] d[q],
            ) by {
                assert(ref_le(b[p], b[q]));
            }
        }
        law_order_is_unique(c, d);
    } else {
        assert(a =~= b);
    }
}

// ── The plan ────────────────────────────────────────────────────────────────

/// One block to be copied: the position of its input directory, its file names
/// there, and its file names in the subset.
#[derive(Debug)]
pub struct BlockCopy {
    pub dir_idx: usize,
    pub src_feat: String,
    pub src_lbl: String,
    pub dst_feat: String,
    pub dst_lbl: String,
}

/// What a subset takes: the copies in order, with the metadata of the blocks
/// that they make. Where a block is refused, the copies are those before it.
#[derive(Debug)]
pub struct SubsetPlan {
    pub copies: Vec<BlockCopy>,
    pub blocks: Vec<LabeledBlockMeta>,
    pub fault: Option<ClassifierError>,
}

/// The block that a reference stands for: of several with its ID, the last.
pub open spec fn block_of(manifests: Seq<LabeledBlockManifest>, r: BlockRef) -> Option<
    LabeledBlockMeta,
> {
    if r.0 < manifests.len() && last_with_id(manifests[r.0 as int].blocks@, r.1) >= 0 {
        Some(manifests[r.0 as int].blocks@[last_with_id(manifests[r.0 as int].blocks@, r.1)])
    } else {
        None
    }
}

/// The message on a directory beyond the inputs.
pub open spec fn dir_message(dir: nat, n_inputs: nat) -> Seq<char> {
    "split-dataset: internal error — dir_idx "@ + decimal(dir) + " out of range for "@ + decimal(
        n_inputs,
    ) + " inputs"@
}

/// Why the block of a reference is refused: one of its file names is no bare
/// name, or its directory is not among the inputs.
pub open spec fn ref_fault(
    manifests: Seq<LabeledBlockManifest>,
    n_inputs: nat,
    r: BlockRef,
) -> Option<Seq<char>> {
    match block_of(manifests, r) {
        None => None,
        Some(b) => if !is_bare_name(b.meta.file@) {
            Some(bad_name_message(b.meta.file@))
        } else if !is_bare_name(b.lbl_file@) {
            Some(bad_name_message(b.lbl_file@))
        } else if r.0 >= n_inputs {
            Some(dir_message(r.0 as nat, n_inputs))
        } else {
            None
        },
    }
}

/// The positions among the first `n` references whose blocks exist.
pub open spec fn found(
    manifests: Seq<LabeledBlockManifest>,
    refs: Seq<BlockRef>,
    n: int,
) -> Seq<int>
    decreases n,
{
    if n <= 0 {
        Seq::empty()
    } else if block_of(manifests, refs[n - 1]) is Some {
        found(manifests, refs, n - 1).push(n - 1)
    } else {
        found(manifests, refs, n - 1)
    }
}

/// The name of the feature file of block `k`.
pub open spec fn feat_name(k: nat) -> Seq<char> {
    "block_"@ + decimal5(k) + ".feat"@
}

/// The name of the label file of block `k`.
pub open spec fn lbl_name(k: nat) -> Seq<char> {
    "block_"@ + decimal5(k) + ".lbl"@
}

/// `c` copies the block `b` of input `dir` as block `k`.
pub open spec fn copies_block(c: BlockCopy, dir: usize, b: LabeledBlockMeta, k: int) -> bool {
    &&& c.dir_idx == dir
    &&& c.src_feat@ == b.meta.file@
    &&& c.src_lbl@ == b.lbl_file@
    &&& c.dst_feat@ == feat_name(k as nat)
    &&& c.dst_lbl@ == lbl_name(k as nat)
}

/// `n` is the block `b` with the ID `k` and the file names that go with it.
pub open spec fn renumbered(n: LabeledBlockMeta, b: LabeledBlockMeta, k: int) -> bool {
    &&& n.meta.id == k
    &&& n.meta.file@ == feat_name(k as nat)
    &&& n.meta.origin_x == b.meta.origin_x
    &&& n.meta.origin_y == b.meta.origin_y
    &&& n.meta.raw_point_count == b.meta.raw_point_count
    &&& n.meta.sampled_point_count == b.meta.sampled_point_count
    &&& n.meta.oversampled == b.meta.oversampled
    &&& n.meta.n_halo == b.meta.n_halo
    &&& n.lbl_file@ == lbl_name(k as nat)
    &&& n.macro_tile_id == b.macro_tile_id
    &&& n.class_distribution@ == b.class_distribution@
}

/// The copies and the metadata are those of the first `n` references.
pub open spec fn plans(
    copies: Seq<BlockCopy>,
    blocks: Seq<LabeledBlockMeta>,
    manifests: Seq<LabeledBlockManifest>,
    refs: Seq<BlockRef>,
    n: int,
) -> bool {
    let ks = found(manifests, refs, n);
    &&& copies.len() == ks.len()
    &&& blocks.len() == ks.len()
    &&& forall|j: int|
        0 <= j < ks.len() ==> copies_block(
            #[trigger] copies[j],
            refs[ks[j]].0,
            block_of(manifests, refs[ks[j]]).unwrap(),
            ks[j],
        )
    &&& forall|j: int|
        0 <= j < ks.len() ==> renumbered(
            #[trigger] blocks[j],
            block_of(manifests, refs[ks[j]]).unwrap(),
            ks[j],
        )
}

/// Whether none of the first `n` references is refused.
pub open spec fn all_accepted(
    manifests: Seq<LabeledBlockManifest>,
    n_inputs: nat,
    refs: Seq<BlockRef>,
    n: int,
) -> bool {
    forall|k: int| 0 <= k < n ==> ref_fault(manifests, n_inputs, #[trigger] refs[k]) is None
}

fn place_tables(manifests: &Vec<LabeledBlockManifest>) -> (r: Vec<HashMap<u64, usize>>)
    ensures
        r@.len() == manifests@.len(),
        forall|d: int, id: u64|
            0 <= d < r@.len() ==> (#[trigger] r@[d]@.dom().contains(id) <==> last_with_id(
                manifests@[d].blocks@,
                id,
            ) >= 0),
        forall|d: int, id: u64|
            0 <= d < r@.len() && #[trigger] r@[d]@.dom().contains(id) ==> r@[d]@[id]
                == last_with_id(manifests@[d].blocks@, id),
{
    let mut out: Vec<HashMap<u64, usize>> = Vec::new();
    let mut d: usize = 0;
    while d < manifests.len()
        invariant
            d <= manifests@.len(),
            out@.len() == d,
            forall|e: int, id: u64|
                0 <= e < d ==> (#[trigger] out@[e]@.dom().contains(id) <==> last_with_id(
                    manifests@[e].blocks@,
                    id,
                ) >= 0),
            forall|e: int, id: u64|
                0 <= e < d && #[trigger] out@[e]@.dom().contains(id) ==> out@[e]@[id]
                    == last_with_id(manifests@[e].blocks@, id),
        decreases manifests@.len() - d,
    {
        let places = last_places(&manifests[d].blocks);
        out.push(places);
        d = d + 1;
    }
    out
}

proof fn lemma_last_below(blocks: Seq<LabeledBlockMeta>, id: u64)
    ensures
        last_with_id(blocks, id) < blocks.len(),
    decreases blocks.len(),
{
    if blocks.len() > 0 {
        lemma_last_below(blocks.drop_last(), id);
    }
}

fn copy_of(dir: usize, b: &LabeledBlockMeta, k: usize) -> (r: (BlockCopy, LabeledBlockMeta))
    ensures
        copies_block(r.0, dir, *b, k as int),
        renumbered(r.1, *b, k as int),
{
    let number = decimal5_text(k as u64);
    let feat = concat3("block_", number.as_str(), ".feat");
    let lbl = concat3("block_", number.as_str(), ".lbl");
    let copy = BlockCopy {
        dir_idx: dir,
        src_feat: b.meta.file.clone(),
        src_lbl: b.lbl_file.clone(),
        dst_feat: feat.clone(),
        dst_lbl: lbl.clone(),
    };
    let block = LabeledBlockMeta {
        meta: BlockMeta {
            id: k as u64,
            file: feat,
            origin_x: b.meta.origin_x,
            origin_y: b.meta.origin_y,
            raw_point_count: b.meta.raw_point_count,
            sampled_point_count: b.meta.sampled_point_count,
            oversampled: b.meta.oversampled,
            n_halo: b.meta.n_halo,
        },
        lbl_file: lbl,
        macro_tile_id: b.macro_tile_id,
        class_distribution: b.class_distribution.clone(),
    };
    (copy, block)
}

fn check_ref(b: &LabeledBlockMeta, dir: usize, n_inputs: usize) -> (r: Option<ClassifierError>)
    ensures
        match r {
            None => is_bare_name(b.meta.file@) && is_bare_name(b.lbl_file@) && dir < n_inputs,
            Some(e) => e.text() == pipeline_text(
                if !is_bare_name(b.meta.file@) {
                    bad_name_message(b.meta.file@)
                } else if !is_bare_name(b.lbl_file@) {
                    bad_name_message(b.lbl_file@)
                } else {
                    dir_message(dir as nat, n_inputs as nat)
                },
            ) && !(is_bare_name(b.meta.file@) && is_bare_name(b.lbl_file@) && dir < n_inputs),
        },
{
    match validate_block_filename(b.meta.file.as_str()) {
        Err(e) => {
            return Some(e);
        },
        Ok(_) => {},
    }
    match validate_block_filename(b.lbl_file.as_str()) {
        Err(e) => {
            return Some(e);
        },
        Ok(_) => {},
    }
    if dir >= n_inputs {
        let m = concat5(
            "split-dataset: internal error — dir_idx ",
            decimal_text(dir as u64).as_str(),
            " out of range for ",
            decimal_text(n_inputs as u64).as_str(),
            " inputs",
        );
        return Some(ClassifierError::Pipeline(m));
    }
    None
}

/// The plan ends at reference `k`, which is refused with this error.
pub open spec fn refused_at(
    p: SubsetPlan,
    e: ClassifierError,
    manifests: Seq<LabeledBlockManifest>,
    n_inputs: nat,
    refs: Seq<BlockRef>,
    k: int,
) -> bool {
    &&& 0 <= k < refs.len()
    &&& all_accepted(manifests, n_inputs, refs, k)
    &&& plans(p.copies@, p.blocks@, manifests, refs, k)
    &&& ref_fault(manifests, n_inputs, refs[k]) matches Some(m) && e.text() == pipeline_text(m)
}

/// Plans one subset: every reference, in the order given, is copied under its
/// position. The plan ends before the first block that is refused.
pub fn plan_subset(
    manifests: &Vec<LabeledBlockManifest>,
    n_inputs: usize,
    refs: &Vec<BlockRef>,
) -> (r: SubsetPlan)
    ensures
        match r.fault {
            None => all_accepted(manifests@, n_inputs as nat, refs@, refs@.len() as int) && plans(
                r.copies@,
                r.blocks@,
                manifests@,
                refs@,
                refs@.len() as int,
            ),
            Some(e) => exists|k: int| #[trigger]
                refused_at(r, e, manifests@, n_inputs as nat, refs@, k),
        },
{
    let tables = place_tables(manifests);
    let mut copies: Vec<BlockCopy> = Vec::new();
    let mut blocks: Vec<LabeledBlockMeta> = Vec::new();
    let mut k: usize = 0;
    while k < refs.len()
        invariant
            k <= refs@.len(),
            tables@.len() == manifests@.len(),
            forall|d: int, id: u64|
                0 <= d < tables@.len() ==> (#[trigger] tables@[d]@.dom().contains(id)
                    <==> last_with_id(manifests@[d].blocks@, id) >= 0),
            forall|d: int, id: u64|
                0 <= d < tables@.len() && #[trigger] tables@[d]@.dom().contains(id)
                    ==> tables@[d]@[id] == last_with_id(manifests@[d].blocks@, id),
            all_accepted(manifests@, n_inputs as nat, refs@, k as int),
            plans(copies@, blocks@, manifests@, refs@, k as int),
        decreases refs@.len() - k,
    {
        broadcast use vstd::std_specs::hash::group_hash_axioms;

        let (dir, id) = refs[k];
        let place: Option<usize> = if dir < tables.len() {
            match tables[dir].get(&id) {
                Some(p) => Some(*p),
                None => None,
            }
        } else {
            None
        };
        proof {
            if dir < tables@.len() {
                let known = tables@[dir as int]@.dom().contains(id);
                assert(known <==> last_with_id(manifests@[dir as int].blocks@, id) >= 0);
                lemma_last_below(manifests@[dir as int].blocks@, id);
            }
        }
        match place {
            Some(p) => {
                let block = &manifests[dir].blocks[p];
                assert(block_of(manifests@, refs@[k as int]) == Some(*block));
                match check_ref(block, dir, n_inputs) {
                    Some(e) => {
                        let r = SubsetPlan { copies, blocks, fault: Some(e) };
                        assert(refused_at(
                            r,
                            r.fault.unwrap(),
                            manifests@,
                            n_inputs as nat,
                            refs@,
                            k as int,
                        ));
                        return r;
                    },
                    None => {},
                }
                let ghost ks = found(manifests@, refs@, k as int);
                let ghost c0 = copies@;
                let ghost b0 = blocks@;
                let (copy, new_block) = copy_of(dir, block, k);
                copies.push(copy);
                blocks.push(new_block);
                proof {
                    let ks1 = found(manifests@, refs@, k + 1);
                    assert(ks1 =~= ks.push(k as int));
                    assert forall|j: int| 0 <= j < ks1.len() implies copies_block(
                        #[trigger] copies@[j],
                        refs@[ks1[j]].0,
                        block_of(manifests@, refs@[ks1[j]]).unwrap(),
                        ks1[j],
                    ) by {
                        if j < ks.len() {
                            assert(copies@[j] == c0[j]);
                        }
                    }
                    assert forall|j: int| 0 <= j < ks1.len() implies renumbered(
                        #[trigger] blocks@[j],
                        block_of(manifests@, refs@[ks1[j]]).unwrap(),
                        ks1[j],
                    ) by {
                        if j < ks.len() {
                            assert(blocks@[j] == b0[j]);
                        }
                    }
                }
            },
            None => {
                assert(block_of(manifests@, refs@[k as int]) is None);
            },
        }
        k = k + 1;
    }
    SubsetPlan { copies, blocks, fault: None }
}

// ── Files and directories of a split ────────────────────────────────────────

/// The subsets of a split.
#[derive(Debug, Clone, Copy, PartialEq, Eq, Structural)]
pub enum Subset {
    Train,
    Val,
    Test,
}

impl Subset {
    /// The name of the subset's directory.
    pub open spec fn name(self) -> Seq<char> {
        match self {
            Subset::Train => "train"@,
            Subset::Val => "val"@,
            Subset::Test => "test"@,
        }
    }

    pub fn name_text(self) -> (r: &'static str)
        ensures
            r@ == self.name(),
    {
        match self {
            Subset::Train => "train",
            Subset::Val => "val",
            Subset::Test => "test",
        }
    }
}

/// The subsets that get a directory: training and validation always do, also
/// where they are empty; test does where it has blocks.
pub open spec fn subsets_of(split: MultiThreeWaySplit) -> Seq<Subset> {
    if split.test@.len() == 0 {
        seq![Subset::Train, Subset::Val]
    } else {
        seq![Subset::Train, Subset::Val, Subset::Test]
    }
}

/// The subsets that get a directory, in the order in which they are written.
pub fn subsets_to_write(split: &MultiThreeWaySplit) -> (r: Vec<Subset>)
    ensures
        r@ == subsets_of(*split),
{
    if split.test.len() == 0 {
        vec![Subset::Train, Subset::Val]
    } else {
        vec![Subset::Train, Subset::Val, Subset::Test]
    }
}

/// One step in writing a subset's files; `block` counts the planned copies.
#[derive(Debug, Clone, Copy, PartialEq, Eq, Structural)]
pub enum FileStep {
    CopyFeatures { block: usize },
    CopyLabels { block: usize },
    RemoveFeatures { block: usize },
    RemoveLabels { block: usize },
}

/// The steps for one block: both files are copied, and only then, where files
/// are moved, the sources go.
pub open spec fn block_steps(block: usize, move_files: bool) -> Seq<FileStep> {
    if move_files {
        seq![
            FileStep::CopyFeatures { block },
            FileStep::CopyLabels { block },
            FileStep::RemoveFeatures { block },
            FileStep::RemoveLabels { block },
        ]
    } else {
        seq![FileStep::CopyFeatures { block }, FileStep::CopyLabels { block }]
    }
}

/// The steps for the first `n` blocks, one block after the other.
pub open spec fn steps_of(n: int, move_files: bool) -> Seq<FileStep>
    decreases n,
{
    if n <= 0 {
        Seq::empty()
    } else {
        steps_of(n - 1, move_files) + block_steps((n - 1) as usize, move_files)
    }
}

/// The steps that write a subset's files. They are taken in order, and the
/// first copy that fails ends them.
pub fn file_steps(plan: &SubsetPlan, move_files: bool) -> (r: Vec<FileStep>)
    ensures
        r@ == steps_of(plan.copies@.len() as int, move_files),
{
    let mut out: Vec<FileStep> = Vec::new();
    let mut block: usize = 0;
    while block < plan.copies.len()
        invariant
            block <= plan.copies@.len(),
            out@ == steps_of(block as int, move_files),
        decreases plan.copies@.len() - block,
    {
        out.push(FileStep::CopyFeatures { block });
        out.push(FileStep::CopyLabels { block });
        if move_files {
            out.push(FileStep::RemoveFeatures { block });
            out.push(FileStep::RemoveLabels { block });
        }
        assert(out@ =~= steps_of(block + 1, move_files));
        block = block + 1;
    }
    out
}

/// A move loses nothing, wherever it ends: of a block one of whose sources was
/// removed, both files had been copied. Nothing is removed where files are not
/// moved.
pub proof fn law_move_loses_nothing(n: int, move_files: bool, done: int, block: usize)
    requires
        0 <= n <= usize::MAX,
        0 <= done <= steps_of(n, move_files).len(),
    ensures
        ({
            let taken = steps_of(n, move_files).take(done);
            let gone = taken.contains(FileStep::RemoveFeatures { block }) || taken.contains(
                FileStep::RemoveLabels { block },
            );
            &&& gone ==> move_files
            &&& gone ==> taken.contains(FileStep::CopyFeatures { block })
            &&& gone ==> taken.contains(FileStep::CopyLabels { block })
        }),
    decreases n,
{
    let all = steps_of(n, move_files);
    let taken = all.take(done);
    let f = FileStep::RemoveFeatures { block };
    let l = FileStep::RemoveLabels { block };
    if n > 0 && (taken.contains(f) || taken.contains(l)) {
        let before = steps_of(n - 1, move_files);
        let i = if taken.contains(f) {
            choose|i: int| 0 <= i < taken.len() && taken[i] == f
        } else {
            choose|i: int| 0 <= i < taken.len() && taken[i] == l
        };
        if i < before.len() {
            let part = if done <= before.len() {
                done
            } else {
                before.len() as int
            };
            law_move_loses_nothing(n - 1, move_files, part, block);
            let early = before.take(part);
            assert(early[i] == taken[i]);
            assert(early.contains(FileStep::CopyFeatures { block }));
            assert(early.contains(FileStep::CopyLabels { block }));
            let a = choose|a: int|
                0 <= a < early.len() && early[a] == (FileStep::CopyFeatures { block });
            let b = choose|b: int|
                0 <= b < early.len() && early[b] == (FileStep::CopyLabels { block });
            assert(taken[a] == early[a]);
            assert(taken[b] == early[b]);
        } else {
            let last = block_steps((n - 1) as usize, move_files);
            let at = before.len() as int;
            assert(taken[i] == last[i - at]);
            assert(i - at >= 2);
            assert(taken[at] == last[0]);
            assert(taken[at + 1] == last[1]);
        }
    }
}

/// When all steps have been taken, both files of every block have been copied.
pub proof fn law_steps_copy_everything(n: int, move_files: bool, block: usize)
    requires
        0 <= n <= usize::MAX,
        block < n,
    ensures
        steps_of(n, move_files).contains(FileStep::CopyFeatures { block }),
        steps_of(n, move_files).contains(FileStep::CopyLabels { block }),
    decreases n,
{
    let all = steps_of(n, move_files);
    let before = steps_of(n - 1, move_files);
    if block < n - 1 {
        law_steps_copy_everything(n - 1, move_files, block);
        let a = choose|a: int|
            0 <= a < before.len() && before[a] == (FileStep::CopyFeatures { block });
        let b = choose|b: int|
            0 <= b < before.len() && before[b] == (FileStep::CopyLabels { block });
        assert(all[a] == before[a]);
        assert(all[b] == before[b]);
    } else {
        let last = block_steps((n - 1) as usize, move_files);
        assert(all[before.len() as int] == last[0]);
        assert(all[before.len() as int + 1] == last[1]);
    }
}

// ── The manifest of a subset ────────────────────────────────────────────────

/// The sources of the first `n` manifests, separated by commas.
pub open spec fn joined_sources(manifests: Seq<LabeledBlockManifest>, n: int) -> Seq<char>
    decreases n,
{
    if n <= 0 {
        Seq::empty()
    } else if n == 1 {
        manifests[0].source@
    } else {
        joined_sources(manifests, n - 1) + ", "@ + manifests[n - 1].source@
    }
}

fn join_sources(manifests: &Vec<LabeledBlockManifest>) -> (r: String)
    ensures
        r@ == joined_sources(manifests@, manifests@.len() as int),
{
    let mut out = String::new();
    if manifests.len() == 0 {
        return out;
    }
    out.append(manifests[0].source.as_str());
    assert(out@ =~= manifests@[0].source@);
    let mut i: usize = 1;
    while i < manifests.len()
        invariant
            1 <= i <= manifests@.len(),
            out@ == joined_sources(manifests@, i as int),
        decreases manifests@.len() - i,
    {
        out.append(", ");
        out.append(manifests[i].source.as_str());
        i = i + 1;
    }
    out
}

fn copy_reals(v: &Vec<Real64>) -> (r: Vec<Real64>)
    ensures
        r@ == v@,
{
    let mut out: Vec<Real64> = Vec::new();
    let mut i: usize = 0;
    while i < v.len()
        invariant
            i <= v@.len(),
            out@ =~= v@.take(i as int),
        decreases v@.len() - i,
    {
        out.push(v[i]);
        i = i + 1;
    }
    assert(v@.take(i as int) =~= v@);
    out
}

/// The manifest of a subset: the settings of the first input, all sources, and
/// the subset's own blocks.
pub fn subset_manifest(
    manifests: &Vec<LabeledBlockManifest>,
    blocks: Vec<LabeledBlockMeta>,
) -> (r: LabeledBlockManifest)
    requires
        manifests@.len() > 0,
    ensures
        r.source@ == joined_sources(manifests@, manifests@.len() as int),
        r.block_size == manifests@[0].block_size,
        r.target_points == manifests@[0].target_points,
        r.min_density == manifests@[0].min_density,
        r.search_radius == manifests@[0].search_radius,
        r.search_radii@ == manifests@[0].search_radii@,
        r.min_neighbors == manifests@[0].min_neighbors,
        r.crs_epsg == manifests@[0].crs_epsg,
        r.label_map@ == manifests@[0].label_map@,
        r.spatial_tile_grid == manifests@[0].spatial_tile_grid,
        r.halo_fraction == manifests@[0].halo_fraction,
        r.blocks == blocks,
{
    let first = &manifests[0];
    LabeledBlockManifest {
        source: join_sources(manifests),
        block_size: first.block_size,
        target_points: first.target_points,
        min_density: first.min_density,
        search_radius: first.search_radius,
        search_radii: copy_reals(&first.search_radii),
        min_neighbors: first.min_neighbors,
        crs_epsg: first.crs_epsg,
        label_map: first.label_map.clone(),
        spatial_tile_grid: first.spatial_tile_grid,
        halo_fraction: first.halo_fraction,
        blocks,
    }
}

/// Files of one subset never collide: two blocks with the same file name have
/// the same number.
pub proof fn law_names_never_collide(j: nat, k: nat)
    ensures
        feat_name(j) == feat_name(k) ==> j == k,
        lbl_name(j) == lbl_name(k) ==> j == k,
{
    let lead = "block_"@;
    let (a, b) = (decimal5(j), decimal5(k));
    let (feat, lbl) = (".feat"@, ".lbl"@);
    if feat_name(j) == feat_name(k) {
        lemma_middle(lead, a, b, feat);
        law_decimal5_injective(j, k);
    }
    if lbl_name(j) == lbl_name(k) {
        lemma_middle(lead, a, b, lbl);
        law_decimal5_injective(j, k);
    }
}

proof fn lemma_middle(lead: Seq<char>, a: Seq<char>, b: Seq<char>, tail: Seq<char>)
    requires
        lead + a + tail == lead + b + tail,
    ensures
        a == b,
{
    let x = lead + a + tail;
    assert(x.len() == lead.len() + a.len() + tail.len());
    assert((lead + b + tail).len() == lead.len() + b.len() + tail.len());
    assert(a =~= x.subrange(lead.len() as int, (lead.len() + a.len()) as int));
    assert(b =~= (lead + b + tail).subrange(lead.len() as int, (lead.len() + b.len()) as int));
}

// ── What a plan holds ───────────────────────────────────────────────────────

/// References in order go by directory first and by block ID within one.
pub proof fn law_references_go_by_directory(s: Seq<BlockRef>, i: int, j: int)
    requires
        refs_ascend(s),
        0 <= i < j < s.len(),
    ensures
        s[i].0 <= s[j].0,
        s[i].0 == s[j].0 ==> s[i].1 <= s[j].1,
{
    assert(ref_le(s[i], s[j]));
}

/// A reference names the last block of its directory with its ID; it names none
/// exactly where there is no such directory or no such block in it.
pub proof fn law_a_reference_names_its_block(manifests: Seq<LabeledBlockManifest>, r: BlockRef)
    ensures
        block_of(manifests, r) is Some <==> r.0 < manifests.len() && exists|j: int|
            0 <= j < manifests[r.0 as int].blocks@.len() && (
            #[trigger] manifests[r.0 as int].blocks@[j]).meta.id == r.1,
        block_of(manifests, r) is Some ==> exists|j: int|
            0 <= j < manifests[r.0 as int].blocks@.len()
                && #[trigger] manifests[r.0 as int].blocks@[j] == block_of(manifests, r).unwrap()
                && manifests[r.0 as int].blocks@[j].meta.id == r.1 && forall|k: int|
                j < k < manifests[r.0 as int].blocks@.len() ==> (
                #[trigger] manifests[r.0 as int].blocks@[k]).meta.id != r.1,
{
    if r.0 < manifests.len() {
        let blocks = manifests[r.0 as int].blocks@;
        law_last_block_with_an_id(blocks, r.1);
        let j = last_with_id(blocks, r.1);
        if j >= 0 {
            assert(blocks[j].meta.id == r.1);
        }
    }
}

/// A plan takes every reference that names a block, once and in order, and no
/// other. The `j`-th copy goes from the files of the block in its directory to
/// the names with the reference's position, and the block's entry keeps what it
/// said of the block but for ID and names. The returned sequence gives the
/// positions.
pub proof fn law_plan_takes_each_block(
    copies: Seq<BlockCopy>,
    blocks: Seq<LabeledBlockMeta>,
    manifests: Seq<LabeledBlockManifest>,
    refs: Seq<BlockRef>,
    n: int,
) -> (at: Seq<int>)
    requires
        plans(copies, blocks, manifests, refs, n),
        0 <= n <= refs.len(),
    ensures
        selects(at, |k: int| block_of(manifests, refs[k]) is Some, n),
        copies.len() == at.len(),
        blocks.len() == at.len(),
        forall|j: int|
            0 <= j < at.len() ==> {
                let b = block_of(manifests, refs[#[trigger] at[j]]).unwrap();
                &&& copies[j].dir_idx == refs[at[j]].0
                &&& copies[j].src_feat@ == b.meta.file@
                &&& copies[j].src_lbl@ == b.lbl_file@
                &&& copies[j].dst_feat@ == "block_"@ + decimal5(at[j] as nat) + ".feat"@
                &&& copies[j].dst_lbl@ == "block_"@ + decimal5(at[j] as nat) + ".lbl"@
                &&& blocks[j].meta.id == at[j]
                &&& blocks[j].meta.file@ == copies[j].dst_feat@
                &&& blocks[j].lbl_file@ == copies[j].dst_lbl@
                &&& blocks[j].meta.origin_x == b.meta.origin_x
                &&& blocks[j].meta.origin_y == b.meta.origin_y
                &&& blocks[j].meta.raw_point_count == b.meta.raw_point_count
                &&& blocks[j].meta.sampled_point_count == b.meta.sampled_point_count
                &&& blocks[j].meta.oversampled == b.meta.oversampled
                &&& blocks[j].meta.n_halo == b.meta.n_halo
                &&& blocks[j].macro_tile_id == b.macro_tile_id
                &&& blocks[j].class_distribution@ == b.class_distribution@
            },
{
    let at = found(manifests, refs, n);
    lemma_found_selects(manifests, refs, n);
    assert forall|j: int| 0 <= j < at.len() implies copies_block(
        copies[j],
        refs[#[trigger] at[j]].0,
        block_of(manifests, refs[at[j]]).unwrap(),
        at[j],
    ) && renumbered(blocks[j], block_of(manifests, refs[at[j]]).unwrap(), at[j]) by {
        assert(copies[j] == copies[j] && blocks[j] == blocks[j]);
    }
    at
}

proof fn lemma_found_selects(manifests: Seq<LabeledBlockManifest>, refs: Seq<BlockRef>, n: int)
    requires
        0 <= n,
    ensures
        selects(found(manifests, refs, n), |k: int| block_of(manifests, refs[k]) is Some, n),
    decreases n,
{
    if n > 0 {
        lemma_found_selects(manifests, refs, n - 1);
        lemma_selects_step(
            found(manifests, refs, n - 1),
            |k: int| block_of(manifests, refs[k]) is Some,
            n - 1,
        );
    }
}

/// A reference is refused exactly where it names a block one of whose two files
/// is not a bare name, or whose directory is not among the inputs.
pub proof fn law_refused_references(
    manifests: Seq<LabeledBlockManifest>,
    n_inputs: nat,
    r: BlockRef,
)
    ensures
        ref_fault(manifests, n_inputs, r) is None <==> (block_of(manifests, r) is None || {
            &&& is_bare_name(block_of(manifests, r).unwrap().meta.file@)
            &&& is_bare_name(block_of(manifests, r).unwrap().lbl_file@)
            &&& r.0 < n_inputs
        }),
{
}

/// Training and validation sets are always written, the test set where it has a
/// block.
pub proof fn law_test_set_is_written_where_there_is_one(split: MultiThreeWaySplit)
    ensures
        subsets_of(split).len() == 2 || subsets_of(split).len() == 3,
        subsets_of(split)[0] == Subset::Train,
        subsets_of(split)[1] == Subset::Val,
        subsets_of(split).contains(Subset::Test) <==> split.test@.len() > 0,
{
    let s = subsets_of(split);
    if split.test@.len() > 0 {
        assert(s[2] == Subset::Test);
    }
}

/// Moving a block removes both its source files, and nothing is done twice: two
/// steps for each block, four where it is moved.
pub proof fn law_move_removes_the_sources(n: int, block: usize)
    requires
        0 <= n <= usize::MAX,
        block < n,
    ensures
        steps_of(n, true).contains(FileStep::RemoveFeatures { block }),
        steps_of(n, true).contains(FileStep::RemoveLabels { block }),
        steps_of(n, true).len() == 4 * n,
        steps_of(n, false).len() == 2 * n,
    decreases n,
{
    let before = steps_of(n - 1, true);
    let all = steps_of(n, true);
    if n - 1 > block {
        law_move_removes_the_sources(n - 1, block);
        let i = before.index_of(FileStep::RemoveFeatures { block });
        let j = before.index_of(FileStep::RemoveLabels { block });
        assert(all[i] == before[i] && all[j] == before[j]);
    } else {
        lemma_step_counts(n - 1);
        assert(all[before.len() as int + 2] == FileStep::RemoveFeatures { block });
        assert(all[before.len() as int + 3] == FileStep::RemoveLabels { block });
    }
}

proof fn lemma_step_counts(n: int)
    requires
        0 <= n,
    ensures
        steps_of(n, true).len() == 4 * n,
        steps_of(n, false).len() == 2 * n,
    decreases n,
{
    if n > 0 {
        lemma_step_counts(n - 1);
    }
}

/// The sources of all inputs are those of the first ones, a comma and a space,
/// and those of the others.
pub proof fn law_sources_are_joined(manifests: Seq<LabeledBlockManifest>, a: int, n: int)
    requires
        0 < a < n <= manifests.len(),
    ensures
        joined_sources(manifests, n) == joined_sources(manifests, a) + ", "@ + joined_sources(
            manifests.skip(a),
            n - a,
        ),
        joined_sources(manifests, 1) == manifests[0].source@,
    decreases n,
{
    let rest = manifests.skip(a);
    let first = joined_sources(manifests, a);
    assert(rest[n - a - 1] == manifests[n - 1]);
    if n == a + 1 {
        assert(joined_sources(rest, 1) == rest[0].source@);
    } else {
        law_sources_are_joined(manifests, a, n - 1);
        let middle = joined_sources(rest, n - a - 1);
        let last = manifests[n - 1].source@;
        assert(first + ", "@ + middle + ", "@ + last =~= first + ", "@ + (middle + ", "@ + last));
    }
}

} // verus!
