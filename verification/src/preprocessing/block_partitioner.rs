//! 2-D grid block partitioner with memory-pressure spill/merge support.
//!
//! Points of any number of streaming chunks are filed under their grid cells,
//! which stay open for the whole stream. When the buffered bytes reach
//! [`SPILL_HIGH_WATER_BYTES`], the largest cells are handed out as spill files
//! until at most half of that is left. After the end of the stream each block
//! is its spill files, in the order in which they were written, followed by
//! what is still held.

use vstd::prelude::*;

use crate::counting::{lemma_places_step, places, sum_of};

use crate::preprocessing::cell_index::{CellIndex, CellKey};
use crate::preprocessing::lite_point::{IndexedPoint, LitePoint, PT_BYTES};
use crate::preprocessing::{block_id, block_number, SPILL_HIGH_WATER_BYTES};
use crate::text::{concat2, decimal, decimal_text, signed_decimal, signed_decimal_text};

verus! {

/// The raw (unprocessed) points of a single 2-D grid cell.
#[derive(Debug)]
pub struct Block {
    /// Grid column index.
    pub col: i32,
    /// Grid row index.
    pub row: i32,
    /// Combined block ID used in file names: `row * grid_cols + col`.
    pub id: u64,
    /// All points belonging to this block, in stream order.
    pub points: Vec<LitePoint>,
    /// The index of each of them in the input stream.
    pub point_indices: Vec<u64>,
}

impl Block {
    pub open spec fn cell(self) -> CellKey {
        (self.col, self.row)
    }

    /// The block holds exactly these points, in this order.
    pub open spec fn holds(self, pts: Seq<IndexedPoint>) -> bool {
        &&& self.points@ == points_of(pts)
        &&& self.point_indices@ == indices_of(pts)
    }
}

impl Block {
    fn empty(col: i32, row: i32, id: u64) -> (r: Self)
        ensures
            r.cell() == (col, row),
            r.id == id,
            r.holds(Seq::empty()),
    {
        let r = Block { col, row, id, points: Vec::new(), point_indices: Vec::new() };
        assert(r.points@ =~= points_of(Seq::empty()));
        assert(r.point_indices@ =~= indices_of(Seq::empty()));
        r
    }

    fn append(&mut self, more: &Vec<IndexedPoint>)
        ensures
            final(self).cell() == old(self).cell(),
            final(self).id == old(self).id,
            forall|pts: Seq<IndexedPoint>|
                old(self).holds(pts) ==> #[trigger] final(self).holds(pts + more@),
    {
        let mut i: usize = 0;
        while i < more.len()
            invariant
                i <= more@.len(),
                self.cell() == old(self).cell(),
                self.id == old(self).id,
                self.points@ =~= old(self).points@ + points_of(more@.take(i as int)),
                self.point_indices@ =~= old(self).point_indices@ + indices_of(
                    more@.take(i as int),
                ),
            decreases more@.len() - i,
        {
            self.points.push(more[i].1);
            self.point_indices.push(more[i].0);
            i = i + 1;
        }
        assert(more@.take(i as int) =~= more@);
        assert forall|pts: Seq<IndexedPoint>| old(self).holds(pts) implies #[trigger] self.holds(
            pts + more@,
        ) by {
            assert(self.points@ =~= points_of(pts + more@));
            assert(self.point_indices@ =~= indices_of(pts + more@));
        }
    }
}

/// A block whose points all stand in spill files.
#[derive(Debug)]
pub struct BlockStub {
    pub col: i32,
    pub row: i32,
    pub id: u64,
    /// How many spill files hold the block.
    pub files: u64,
    /// How many points they hold together.
    pub point_count: u64,
}

impl BlockStub {
    pub open spec fn cell(self) -> CellKey {
        (self.col, self.row)
    }
}

/// The parts of a block, one after the other.
pub open spec fn joined(parts: Seq<Vec<IndexedPoint>>) -> Seq<IndexedPoint>
    decreases parts.len(),
{
    if parts.len() == 0 {
        Seq::empty()
    } else {
        joined(parts.drop_last()) + parts.last()@
    }
}

impl BlockStub {
    /// The block, from the contents of its spill files in the order in which
    /// they were written.
    pub fn load(&self, parts: &Vec<Vec<IndexedPoint>>) -> (r: Block)
        ensures
            r.cell() == self.cell(),
            r.id == self.id,
            r.holds(joined(parts@)),
    {
        let mut block = Block::empty(self.col, self.row, self.id);
        let mut i: usize = 0;
        assert(parts@.take(0) =~= Seq::empty());
        while i < parts.len()
            invariant
                i <= parts@.len(),
                block.cell() == self.cell(),
                block.id == self.id,
                block.holds(joined(parts@.take(i as int))),
            decreases parts@.len() - i,
        {
            block.append(&parts[i]);
            assert(parts@.take(i + 1).drop_last() =~= parts@.take(i as int));
            assert(parts@.take(i + 1).last() == parts@[i as int]);
            i = i + 1;
        }
        assert(parts@.take(i as int) =~= parts@);
        block
    }
}

/// A spill file to be written: its name and the points that it is to hold.
#[derive(Debug)]
pub struct SpillFile {
    pub col: i32,
    pub row: i32,
    pub name: String,
    pub points: Vec<IndexedPoint>,
}

impl SpillFile {
    pub open spec fn cell(self) -> CellKey {
        (self.col, self.row)
    }
}

pub open spec fn points_of(pts: Seq<IndexedPoint>) -> Seq<LitePoint> {
    pts.map_values(|p: IndexedPoint| p.1)
}

pub open spec fn indices_of(pts: Seq<IndexedPoint>) -> Seq<u64> {
    pts.map_values(|p: IndexedPoint| p.0)
}

/// The name of spill file number `n` of a cell.
pub open spec fn spill_name(c: CellKey, n: nat) -> Seq<char> {
    "block_"@ + signed_decimal(c.0 as int) + "_"@ + signed_decimal(c.1 as int) + "_"@ + decimal(n)
        + ".spill"@
}

/// What the files of cell `c` among `files` hold, one after the other.
pub open spec fn spilled_of(files: Seq<SpillFile>, c: CellKey) -> Seq<IndexedPoint>
    decreases files.len(),
{
    if files.len() == 0 {
        Seq::empty()
    } else if files.last().cell() == c {
        spilled_of(files.drop_last(), c) + files.last().points@
    } else {
        spilled_of(files.drop_last(), c)
    }
}

/// How many of `files` belong to cell `c`.
pub open spec fn file_count(files: Seq<SpillFile>, c: CellKey) -> nat
    decreases files.len(),
{
    if files.len() == 0 {
        0
    } else if files.last().cell() == c {
        file_count(files.drop_last(), c) + 1
    } else {
        file_count(files.drop_last(), c)
    }
}

/// Whether one of `stubs` stands for cell `c`.
pub open spec fn has_stub(stubs: Seq<BlockStub>, c: CellKey) -> bool {
    exists|k: int| 0 <= k < stubs.len() && (#[trigger] stubs[k]).cell() == c
}

/// Whether one of `blocks` is the block of cell `c`.
pub open spec fn has_block(blocks: Seq<Block>, c: CellKey) -> bool {
    exists|k: int| 0 <= k < blocks.len() && (#[trigger] blocks[k]).cell() == c
}

struct Cell {
    col: i32,
    row: i32,
    /// The points still held in memory.
    points: Vec<IndexedPoint>,
    /// How many points the spill files hold.
    spilled: u64,
    /// How many spill files there are.
    files: u64,
}

spec fn held_total(cells: Seq<Cell>) -> nat
    decreases cells.len(),
{
    if cells.len() == 0 {
        0
    } else {
        held_total(cells.drop_last()) + cells.last().points@.len()
    }
}

proof fn lemma_held_update(cells: Seq<Cell>, i: int, c: Cell)
    requires
        0 <= i < cells.len(),
    ensures
        held_total(cells.update(i, c)) == held_total(cells) - cells[i].points@.len()
            + c.points@.len(),
        held_total(cells) >= cells[i].points@.len(),
    decreases cells.len(),
{
    let u = cells.update(i, c);
    if i == cells.len() - 1 {
        assert(u.drop_last() =~= cells.drop_last());
    } else {
        assert(u.drop_last() =~= cells.drop_last().update(i, c));
        lemma_held_update(cells.drop_last(), i, c);
    }
}

proof fn lemma_held_zero(cells: Seq<Cell>)
    requires
        forall|i: int| 0 <= i < cells.len() ==> (#[trigger] cells[i]).points@.len() == 0,
    ensures
        held_total(cells) == 0,
    decreases cells.len(),
{
    if cells.len() > 0 {
        assert forall|i: int| 0 <= i < cells.drop_last().len() implies (
        #[trigger] cells.drop_last()[i]).points@.len() == 0 by {
            assert(cells[i].points@.len() == 0);
        }
        lemma_held_zero(cells.drop_last());
        assert(cells[cells.len() - 1].points@.len() == 0);
    }
}

/// Each file is named by its cell and its number among the cell's files.
pub open spec fn well_named(files: Seq<SpillFile>) -> bool {
    forall|k: int|
        0 <= k < files.len() ==> (#[trigger] files[k]).name@ == spill_name(
            files[k].cell(),
            file_count(files.take(k), files[k].cell()),
        )
}

/// The points that `files` hold together.
pub open spec fn file_points(files: Seq<SpillFile>) -> nat
    decreases files.len(),
{
    if files.len() == 0 {
        0
    } else {
        file_points(files.drop_last()) + files.last().points@.len()
    }
}

/// Half of the high-water mark: where a spill pass stops.
pub const SPILL_TARGET_BYTES: usize = 268_435_456;

/// Accumulates points into 2-D grid cells, handing out spill files.
pub struct BlockPartitioner {
    cells: Vec<Cell>,
    places: CellIndex,
    grid_cols: i32,
    buffered_bytes: usize,
    count: u64,
    written: Ghost<Seq<SpillFile>>,
}

impl BlockPartitioner {
    /// All spill files handed out so far, in order.
    pub closed spec fn written(self) -> Seq<SpillFile> {
        self.written@
    }

    /// The points of cell `c` that are held in memory.
    pub closed spec fn held(self, c: CellKey) -> Seq<IndexedPoint> {
        if self.places@.dom().contains(c) {
            self.cells@[self.places@[c] as int].points@
        } else {
            Seq::empty()
        }
    }

    /// Whether cell `c` has received a point.
    pub closed spec fn touched(self, c: CellKey) -> bool {
        self.places@.dom().contains(c)
    }

    /// The number of grid columns.
    pub closed spec fn cols(self) -> i32 {
        self.grid_cols
    }

    /// The bytes that the points held in memory take.
    pub closed spec fn buffered(self) -> nat {
        self.buffered_bytes as nat
    }

    /// How many points have been added.
    pub closed spec fn added(self) -> nat {
        self.count as nat
    }

    /// The points that cell `c` has received, in stream order: those in its
    /// spill files, then those held in memory.
    pub open spec fn received(self, c: CellKey) -> Seq<IndexedPoint> {
        spilled_of(self.written(), c) + self.held(c)
    }

    spec fn filed(cells: Seq<Cell>, places: Map<CellKey, usize>) -> bool {
        &&& forall|c: CellKey| #[trigger]
            places.dom().contains(c) ==> places[c] < cells.len() && cells[places[c] as int].col
                == c.0 && cells[places[c] as int].row == c.1
        &&& forall|i: int|
            0 <= i < cells.len() ==> places.dom().contains(((#[trigger] cells[i]).col, cells[i].row))
                && places[(cells[i].col, cells[i].row)] == i
    }

    spec fn recorded(cells: Seq<Cell>, written: Seq<SpillFile>, count: u64) -> bool {
        forall|i: int|
            0 <= i < cells.len() ==> {
                let c = (#[trigger] cells[i]);
                &&& c.files == file_count(written, (c.col, c.row))
                &&& c.spilled == spilled_of(written, (c.col, c.row)).len()
                &&& c.files <= c.spilled
                &&& c.spilled + c.points@.len() <= count
                &&& c.spilled + c.points@.len() > 0
            }
    }

    spec fn confined(places: Map<CellKey, usize>, written: Seq<SpillFile>) -> bool {
        forall|k: int|
            0 <= k < written.len() ==> places.dom().contains((#[trigger] written[k]).cell())
    }

    spec fn consistent(self) -> bool {
        &&& Self::filed(self.cells@, self.places@)
        &&& Self::recorded(self.cells@, self.written@, self.count)
        &&& Self::confined(self.places@, self.written@)
        &&& self.buffered_bytes == 39 * held_total(self.cells@)
        &&& well_named(self.written@)
    }

    /// What holds between two calls: every point is filed under its cell, and
    /// the bytes held stay below the high-water mark.
    pub closed spec fn wf(self) -> bool {
        &&& self.consistent()
        &&& self.buffered_bytes < SPILL_HIGH_WATER_BYTES
    }

    /// A partitioner for a grid with this many columns, at least 1.
    pub fn new(grid_cols: i32) -> (r: Self)
        ensures
            r.wf(),
            r.written() == Seq::<SpillFile>::empty(),
            forall|c: CellKey| !r.touched(c) && r.received(c) == Seq::<IndexedPoint>::empty(),
            r.cols() == if grid_cols < 1 {
                1
            } else {
                grid_cols
            },
            r.buffered() == 0,
            r.added() == 0,
    {
        let r = BlockPartitioner {
            cells: Vec::new(),
            places: CellIndex::new(),
            grid_cols: if grid_cols < 1 {
                1
            } else {
                grid_cols
            },
            buffered_bytes: 0,
            count: 0,
            written: Ghost(Seq::empty()),
        };
        assert forall|c: CellKey| r.received(c) == Seq::<IndexedPoint>::empty() by {
            assert(r.received(c) =~= Seq::<IndexedPoint>::empty());
        }
        r
    }

    /// The position of the largest cell, the first of several.
    fn largest_cell(&self) -> (r: usize)
        requires
            self.cells@.len() > 0,
        ensures
            r < self.cells@.len(),
            forall|j: int|
                0 <= j < self.cells@.len() ==> (#[trigger] self.cells@[j]).points@.len()
                    <= self.cells@[r as int].points@.len(),
    {
        let mut best: usize = 0;
        let mut j: usize = 1;
        while j < self.cells.len()
            invariant
                1 <= j <= self.cells@.len(),
                best < j,
                forall|k: int|
                    0 <= k < j ==> (#[trigger] self.cells@[k]).points@.len()
                        <= self.cells@[best as int].points@.len(),
            decreases self.cells@.len() - j,
        {
            if self.cells[j].points.len() > self.cells[best].points.len() {
                best = j;
            }
            j = j + 1;
        }
        best
    }

    /// Takes the points of the cell at `i` out of memory, as its next spill
    /// file.
    fn take_cell(&mut self, i: usize) -> (r: SpillFile)
        requires
            old(self).consistent(),
            i < old(self).cells@.len(),
            old(self).cells@[i as int].points@.len() > 0,
        ensures
            final(self).consistent(),
            final(self).cols() == old(self).cols(),
            final(self).added() == old(self).added(),
            final(self).written() == old(self).written().push(r),
            final(self).places@ == old(self).places@,
            final(self).cells@.len() == old(self).cells@.len(),
            forall|j: int|
                0 <= j < old(self).cells@.len() && j != i ==> (#[trigger] final(self).cells@[j])
                    == old(self).cells@[j],
            final(self).cells@[i as int].points@.len() == 0,
            r.cell() == (old(self).cells@[i as int].col, old(self).cells@[i as int].row),
            r.points@ == old(self).cells@[i as int].points@,
            final(self).buffered() + 39 * r.points@.len() == old(self).buffered(),
            forall|c: CellKey| #[trigger] final(self).received(c) == old(self).received(c),
    {
        let col: i32 = self.cells[i].col;
        let row: i32 = self.cells[i].row;
        let files: u64 = self.cells[i].files;
        let spilled: u64 = self.cells[i].spilled;
        let n: usize = self.cells[i].points.len();
        let mut name = concat2("block_", signed_decimal_text(col).as_str());
        name.append("_");
        name.append(signed_decimal_text(row).as_str());
        name.append("_");
        name.append(decimal_text(files).as_str());
        name.append(".spill");
        let mut cell = Cell {
            col,
            row,
            points: Vec::new(),
            spilled: spilled + n as u64,
            files: files + 1,
        };
        let ghost before = self.cells@;
        proof {
            lemma_held_update(before, i as int, cell);
        }
        std::mem::swap(&mut self.cells[i], &mut cell);
        let file = SpillFile { col, row, name, points: cell.points };
        let ghost w0 = self.written@;
        self.written = Ghost(w0.push(file));
        self.buffered_bytes = self.buffered_bytes - n * PT_BYTES;
        proof {
            let w1 = w0.push(file);
            assert(w1.drop_last() =~= w0);
            assert forall|k: int| 0 <= k < w1.len() implies (#[trigger] w1[k]).name@ == spill_name(
                w1[k].cell(),
                file_count(w1.take(k), w1[k].cell()),
            ) by {
                if k < w0.len() {
                    assert(w1[k] == w0[k]);
                    assert(w1.take(k) =~= w0.take(k));
                } else {
                    assert(w1.take(k) =~= w0);
                }
            }
            assert forall|c: CellKey| #[trigger] self.received(c) == old(self).received(c) by {
                if c == (col, row) {
                    assert(self.received(c) =~= old(self).received(c));
                } else if self.places@.dom().contains(c) {
                    assert(self.places@[c] != i);
                }
            }
        }
        file
    }

    /// The outcome of a spill pass that starts with `bytes` bytes held: the
    /// files hold the largest cells, largest first, and no more of them than
    /// it takes to come down to the target.
    pub open spec fn is_spill_pass(self, bytes: nat, files: Seq<SpillFile>) -> bool {
        &&& self.buffered() + 39 * file_points(files) == bytes
        &&& self.buffered() <= SPILL_TARGET_BYTES
        &&& files.len() > 0
        &&& self.buffered() + 39 * files.last().points@.len() > SPILL_TARGET_BYTES
        &&& forall|k: int|
            0 <= k < files.len() ==> (#[trigger] files[k]).points@.len() > 0 && self.held(
                files[k].cell(),
            ).len() == 0
        &&& forall|k: int, m: int|
            0 <= k <= m < files.len() ==> (#[trigger] files[k]).points@.len() >= (
            #[trigger] files[m]).points@.len()
        &&& forall|k: int, c: CellKey|
            0 <= k < files.len() ==> (#[trigger] files[k]).points@.len() >= (#[trigger] self.held(
                c,
            )).len()
    }

    /// Hands out the largest cells held in memory until the bytes held come
    /// down to half of the high-water mark.
    fn spill_largest_cells(&mut self) -> (r: Vec<SpillFile>)
        requires
            old(self).consistent(),
            old(self).buffered() >= SPILL_HIGH_WATER_BYTES,
        ensures
            final(self).consistent(),
            final(self).cols() == old(self).cols(),
            final(self).added() == old(self).added(),
            final(self).written() == old(self).written() + r@,
            final(self).places@ == old(self).places@,
            final(self).is_spill_pass(old(self).buffered(), r@),
            forall|c: CellKey| #[trigger] final(self).received(c) == old(self).received(c),
    {
        let mut out: Vec<SpillFile> = Vec::new();
        assert(self.written() + out@ =~= self.written());
        while self.buffered_bytes > SPILL_TARGET_BYTES
            invariant
                old(self).buffered() >= SPILL_HIGH_WATER_BYTES,
                self.consistent(),
                self.cols() == old(self).cols(),
                self.added() == old(self).added(),
                self.written() == old(self).written() + out@,
                self.places@ == old(self).places@,
                forall|c: CellKey| #[trigger] self.received(c) == old(self).received(c),
                self.buffered() + 39 * file_points(out@) == old(self).buffered(),
                out@.len() == 0 ==> self.buffered() == old(self).buffered(),
                out@.len() > 0 ==> self.buffered() + 39 * out@.last().points@.len()
                    > SPILL_TARGET_BYTES,
                forall|k: int|
                    0 <= k < out@.len() ==> (#[trigger] out@[k]).points@.len() > 0 && self.held(
                        out@[k].cell(),
                    ).len() == 0,
                forall|k: int, m: int|
                    0 <= k <= m < out@.len() ==> (#[trigger] out@[k]).points@.len() >= (
                    #[trigger] out@[m]).points@.len(),
                forall|k: int, j: int|
                    0 <= k < out@.len() && 0 <= j < self.cells@.len() ==> (
                    #[trigger] out@[k]).points@.len() >= (
                    #[trigger] self.cells@[j]).points@.len(),
            decreases self.buffered_bytes,
        {
            proof {
                if forall|i: int|
                    0 <= i < self.cells@.len() ==> (#[trigger] self.cells@[i]).points@.len() == 0 {
                    lemma_held_zero(self.cells@);
                }
            }
            let i: usize = self.largest_cell();
            let ghost before = *self;
            let ghost out0 = out@;
            let file = self.take_cell(i);
            let ghost taken = file;
            out.push(file);
            proof {
                assert(out@.drop_last() =~= out0);
                assert(self.written() =~= old(self).written() + out@);
                assert forall|k: int| 0 <= k < out@.len() implies (
                #[trigger] out@[k]).points@.len() > 0 && self.held(out@[k].cell()).len() == 0 by {
                    let c = out@[k].cell();
                    if k < out0.len() {
                        assert(out@[k] == out0[k]);
                        assert(before.held(c).len() == 0);
                        if self.places@.dom().contains(c) {
                            assert(self.places@[c] < self.cells@.len());
                        }
                    } else {
                        assert(c == taken.cell());
                        assert(self.places@[c] == i) by {
                            assert(before.cells@[i as int].col == c.0);
                        }
                    }
                }
                assert forall|k: int, m: int| 0 <= k <= m < out@.len() implies (
                #[trigger] out@[k]).points@.len() >= (#[trigger] out@[m]).points@.len() by {
                    if m == out0.len() && k < m {
                        assert(out0[k].points@.len() >= before.cells@[i as int].points@.len());
                    }
                }
                assert forall|k: int, j: int|
                    0 <= k < out@.len() && 0 <= j < self.cells@.len() implies (
                #[trigger] out@[k]).points@.len() >= (#[trigger] self.cells@[j]).points@.len() by {
                    if j != i {
                        assert(self.cells@[j] == before.cells@[j]);
                        if k < out0.len() {
                            assert(out@[k] == out0[k]);
                        }
                    }
                }
            }
        }
        proof {
            assert forall|k: int, c: CellKey| 0 <= k < out@.len() implies (
            #[trigger] out@[k]).points@.len() >= (#[trigger] self.held(c)).len() by {
                if self.places@.dom().contains(c) {
                    assert(out@[k].points@.len() >= self.cells@[self.places@[c] as int].points@.len());
                }
            }
        }
        out
    }

    /// Adds one point to the cell (`col`, `row`). Where the bytes held reach
    /// the high-water mark, the largest cells come back as spill files, which
    /// the caller writes.
    pub fn add_point(&mut self, col: i32, row: i32, index: u64, pt: LitePoint) -> (r: Vec<SpillFile>)
        requires
            old(self).wf(),
            old(self).added() < u64::MAX,
        ensures
            final(self).wf(),
            well_named(final(self).written()),
            final(self).cols() == old(self).cols(),
            final(self).added() == old(self).added() + 1,
            final(self).written() == old(self).written() + r@,
            forall|c: CellKey| #[trigger]
                final(self).received(c) == if c == (col, row) {
                    old(self).received(c).push((index, pt))
                } else {
                    old(self).received(c)
                },
            forall|c: CellKey| #[trigger]
                final(self).touched(c) <==> old(self).touched(c) || c == (col, row),
            old(self).buffered() + 39 < SPILL_HIGH_WATER_BYTES ==> r@.len() == 0
                && final(self).buffered() == old(self).buffered() + 39,
            old(self).buffered() + 39 >= SPILL_HIGH_WATER_BYTES ==> final(self).is_spill_pass(
                old(self).buffered() + 39,
                r@,
            ),
    {
        let i: usize = match self.places.get(col, row) {
            Some(i) => i,
            None => {
                let n: usize = self.cells.len();
                self.places.insert(col, row, n);
                self.cells.push(Cell { col, row, points: Vec::new(), spilled: 0, files: 0 });
                proof {
                    assert(self.cells@.drop_last() =~= old(self).cells@);
                    self.lemma_untouched(*old(self), (col, row));
                }
                n
            },
        };
        let ghost mid = *self;
        let cell = Cell {
            col,
            row,
            points: Vec::new(),
            spilled: self.cells[i].spilled,
            files: self.cells[i].files,
        };
        let mut cell = cell;
        std::mem::swap(&mut self.cells[i], &mut cell);
        cell.points.push((index, pt));
        let ghost grown = cell;
        std::mem::swap(&mut self.cells[i], &mut cell);
        self.count = self.count + 1;
        self.buffered_bytes = self.buffered_bytes + PT_BYTES;
        proof {
            assert(self.cells@ =~= mid.cells@.update(i as int, grown));
            lemma_held_update(mid.cells@, i as int, grown);
            assert forall|c: CellKey| #[trigger]
                self.received(c) == if c == (col, row) {
                    old(self).received(c).push((index, pt))
                } else {
                    old(self).received(c)
                } by {
                if c == (col, row) {
                    assert(self.received(c) =~= old(self).received(c).push((index, pt)));
                } else {
                    assert(self.held(c) =~= old(self).held(c));
                }
            }
        }
        if self.buffered_bytes >= SPILL_HIGH_WATER_BYTES {
            self.spill_largest_cells()
        } else {
            let out: Vec<SpillFile> = Vec::new();
            assert(old(self).written() + out@ =~= old(self).written());
            out
        }
    }

    fn id_at(&self, i: usize) -> (r: u64)
        requires
            i < self.cells@.len(),
        ensures
            r == block_number(
                self.cells@[i as int].row as int,
                self.cells@[i as int].col as int,
                self.cols() as int,
            ),
    {
        block_id(self.cells[i].row as i64, self.cells[i].col as i64, self.grid_cols as i64)
    }

    /// Hands out everything still held in memory.
    fn take_all(&mut self) -> (r: Vec<SpillFile>)
        requires
            old(self).consistent(),
        ensures
            final(self).consistent(),
            final(self).cols() == old(self).cols(),
            final(self).places@ == old(self).places@,
            final(self).written() == old(self).written() + r@,
            forall|c: CellKey| #[trigger] final(self).received(c) == old(self).received(c),
            forall|j: int|
                0 <= j < final(self).cells@.len() ==> (#[trigger] final(self).cells@[j]).points@.len() == 0,
    {
        let mut out: Vec<SpillFile> = Vec::new();
        let mut i: usize = 0;
        assert(self.written() + out@ =~= self.written());
        while i < self.cells.len()
            invariant
                i <= self.cells@.len(),
                self.consistent(),
                self.cols() == old(self).cols(),
                self.places@ == old(self).places@,
                self.written() == old(self).written() + out@,
                forall|c: CellKey| #[trigger] self.received(c) == old(self).received(c),
                forall|j: int| 0 <= j < i ==> (#[trigger] self.cells@[j]).points@.len() == 0,
            decreases self.cells@.len() - i,
        {
            if self.cells[i].points.len() > 0 {
                let ghost before = self.cells@;
                let file = self.take_cell(i);
                out.push(file);
                assert(self.written() =~= old(self).written() + out@);
                assert forall|j: int| 0 <= j < i implies (
                #[trigger] self.cells@[j]).points@.len() == 0 by {
                    assert(self.cells@[j] == before[j]);
                }
            }
            i = i + 1;
        }
        out
    }

    spec fn stub_at(self, s: BlockStub, k: int) -> bool {
        let c = self.cells@[k];
        &&& s.cell() == (c.col, c.row)
        &&& s.id == block_number(c.row as int, c.col as int, self.cols() as int)
        &&& s.point_count == c.spilled
        &&& s.files == c.files
    }

    fn stubs(&self) -> (r: Vec<BlockStub>)
        ensures
            r@.len() == self.cells@.len(),
            forall|k: int| 0 <= k < r@.len() ==> self.stub_at(#[trigger] r@[k], k),
    {
        let mut stubs: Vec<BlockStub> = Vec::new();
        let mut j: usize = 0;
        while j < self.cells.len()
            invariant
                j <= self.cells@.len(),
                stubs@.len() == j,
                forall|k: int| 0 <= k < j ==> self.stub_at(#[trigger] stubs@[k], k),
            decreases self.cells@.len() - j,
        {
            stubs.push(
                BlockStub {
                    col: self.cells[j].col,
                    row: self.cells[j].row,
                    id: self.id_at(j),
                    files: self.cells[j].files,
                    point_count: self.cells[j].spilled,
                },
            );
            j = j + 1;
        }
        stubs
    }

    /// Ends the stream: hands out everything still held in memory as spill
    /// files, and names each cell that has received a point.
    pub fn finalize_stubs(self) -> (r: (Vec<SpillFile>, Vec<BlockStub>))
        requires
            self.wf(),
        ensures
            well_named(self.written() + r.0@),
            forall|c: CellKey| #[trigger]
                spilled_of(self.written() + r.0@, c) == self.received(c),
            forall|k: int|
                0 <= k < r.1@.len() ==> {
                    let s = #[trigger] r.1@[k];
                    &&& self.touched(s.cell())
                    &&& s.id == block_number(s.row as int, s.col as int, self.cols() as int)
                    &&& s.point_count == self.received(s.cell()).len()
                    &&& s.files == file_count(self.written() + r.0@, s.cell())
                },
            forall|c: CellKey| #[trigger] self.touched(c) ==> has_stub(r.1@, c),
            forall|k: int, m: int|
                0 <= k < m < r.1@.len() ==> (#[trigger] r.1@[k]).cell() != (
                #[trigger] r.1@[m]).cell(),
    {
        let ghost start = self;
        let mut this = self;
        let out = this.take_all();
        let stubs = this.stubs();
        proof {
            let all = start.written() + out@;
            assert forall|c: CellKey| #[trigger] spilled_of(all, c) == start.received(c) by {
                assert(this.received(c) == start.received(c));
                if this.places@.dom().contains(c) {
                    assert(this.cells@[this.places@[c] as int].points@.len() == 0);
                }
                assert(this.received(c) =~= spilled_of(this.written(), c));
            }
            assert forall|k: int| 0 <= k < stubs@.len() implies ({
                let s = #[trigger] stubs@[k];
                &&& start.touched(s.cell())
                &&& s.id == block_number(s.row as int, s.col as int, start.cols() as int)
                &&& s.point_count == start.received(s.cell()).len()
                &&& s.files == file_count(all, s.cell())
            }) by {
                let c = this.cells@[k];
                assert(this.stub_at(stubs@[k], k));
                assert(this.places@.dom().contains((c.col, c.row)));
                assert(spilled_of(all, (c.col, c.row)) == start.received((c.col, c.row)));
            }
            assert forall|c: CellKey| #[trigger] start.touched(c) implies has_stub(stubs@, c) by {
                let k = this.places@[c] as int;
                assert(this.places@.dom().contains(c));
                assert(this.stub_at(stubs@[k], k));
            }
            assert forall|k: int, m: int| 0 <= k < m < stubs@.len() implies (
            #[trigger] stubs@[k]).cell() != (#[trigger] stubs@[m]).cell() by {
                assert(this.stub_at(stubs@[k], k));
                assert(this.stub_at(stubs@[m], m));
                assert(this.places@[(this.cells@[k].col, this.cells@[k].row)] == k);
                assert(this.places@[(this.cells@[m].col, this.cells@[m].row)] == m);
            }
        }
        (out, stubs)
    }

    /// Ends the stream: merges the spill files, as they were read back in the
    /// order in which they were written, with what is still held in memory.
    pub fn finalize(self, recovered: &Vec<SpillFile>) -> (r: Vec<Block>)
        requires
            self.wf(),
        ensures
            forall|k: int|
                0 <= k < r@.len() ==> {
                    let b = #[trigger] r@[k];
                    &&& self.touched(b.cell())
                    &&& b.id == block_number(b.row as int, b.col as int, self.cols() as int)
                    &&& b.holds(spilled_of(recovered@, b.cell()) + self.held(b.cell()))
                },
            forall|c: CellKey| #[trigger] self.touched(c) ==> has_block(r@, c),
            forall|k: int, m: int|
                0 <= k < m < r@.len() ==> (#[trigger] r@[k]).cell() != (#[trigger] r@[m]).cell(),
    {
        let mut blocks: Vec<Block> = Vec::new();
        let mut i: usize = 0;
        assert(recovered@.take(0) =~= Seq::empty());
        while i < self.cells.len()
            invariant
                i <= self.cells@.len(),
                blocks@.len() == i,
                recovered@.take(0) == Seq::<SpillFile>::empty(),
                forall|k: int|
                    0 <= k < i ==> self.block_at(
                        #[trigger] blocks@[k],
                        k,
                        spilled_of(recovered@.take(0), blocks@[k].cell()),
                    ),
            decreases self.cells@.len() - i,
        {
            let id: u64 = self.id_at(i);
            blocks.push(Block::empty(self.cells[i].col, self.cells[i].row, id));
            i = i + 1;
        }
        let mut f: usize = 0;
        while f < recovered.len()
            invariant
                f <= recovered@.len(),
                self.wf(),
                blocks@.len() == self.cells@.len(),
                forall|k: int|
                    0 <= k < blocks@.len() ==> self.block_at(
                        #[trigger] blocks@[k],
                        k,
                        spilled_of(recovered@.take(f as int), blocks@[k].cell()),
                    ),
            decreases recovered@.len() - f,
        {
            let ghost before = blocks@;
            proof {
                assert(recovered@.take(f + 1).drop_last() =~= recovered@.take(f as int));
                assert(recovered@.take(f + 1).last() == recovered@[f as int]);
            }
            match self.places.get(recovered[f].col, recovered[f].row) {
                Some(p) => {
                    let mut block = Block::empty(0, 0, 0);
                    std::mem::swap(&mut blocks[p], &mut block);
                    block.append(&recovered[f].points);
                    std::mem::swap(&mut blocks[p], &mut block);
                    proof {
                        assert forall|k: int| 0 <= k < blocks@.len() implies self.block_at(
                            #[trigger] blocks@[k],
                            k,
                            spilled_of(recovered@.take(f + 1), blocks@[k].cell()),
                        ) by {
                            assert(self.block_at(
                                before[k],
                                k,
                                spilled_of(recovered@.take(f as int), before[k].cell()),
                            ));
                            if k != p {
                                assert(blocks@[k] == before[k]);
                                assert(self.places@[(self.cells@[k].col, self.cells@[k].row)] == k);
                            }
                        }
                    }
                },
                None => {
                    assert forall|k: int| 0 <= k < blocks@.len() implies self.block_at(
                        #[trigger] blocks@[k],
                        k,
                        spilled_of(recovered@.take(f + 1), blocks@[k].cell()),
                    ) by {
                        assert(self.places@.dom().contains(
                            (self.cells@[k].col, self.cells@[k].row),
                        ));
                    }
                },
            }
            f = f + 1;
        }
        assert(recovered@.take(f as int) =~= recovered@);
        let mut j: usize = 0;
        while j < self.cells.len()
            invariant
                j <= self.cells@.len(),
                self.wf(),
                blocks@.len() == self.cells@.len(),
                forall|k: int|
                    j <= k < blocks@.len() ==> self.block_at(
                        #[trigger] blocks@[k],
                        k,
                        spilled_of(recovered@, blocks@[k].cell()),
                    ),
                forall|k: int|
                    0 <= k < j ==> self.block_at(
                        #[trigger] blocks@[k],
                        k,
                        spilled_of(recovered@, blocks@[k].cell()) + self.held(blocks@[k].cell()),
                    ),
            decreases self.cells@.len() - j,
        {
            let ghost before = blocks@;
            let mut block = Block::empty(0, 0, 0);
            std::mem::swap(&mut blocks[j], &mut block);
            block.append(&self.cells[j].points);
            std::mem::swap(&mut blocks[j], &mut block);
            proof {
                assert(self.places@[(self.cells@[j as int].col, self.cells@[j as int].row)] == j);
                assert(self.places@.dom().contains(
                    (self.cells@[j as int].col, self.cells@[j as int].row),
                ));
                assert forall|k: int| 0 <= k < blocks@.len() && k != j implies blocks@[k]
                    == before[k] by {}
            }
            j = j + 1;
        }
        proof {
            assert forall|k: int| 0 <= k < blocks@.len() implies ({
                let b = #[trigger] blocks@[k];
                &&& self.touched(b.cell())
                &&& b.id == block_number(b.row as int, b.col as int, self.cols() as int)
                &&& b.holds(spilled_of(recovered@, b.cell()) + self.held(b.cell()))
            }) by {
                assert(self.places@.dom().contains((self.cells@[k].col, self.cells@[k].row)));
            }
            assert forall|c: CellKey| #[trigger] self.touched(c) implies has_block(blocks@, c) by {
                let k = self.places@[c] as int;
                assert(self.places@.dom().contains(c));
                assert(blocks@[k].cell() == c);
            }
            assert forall|k: int, m: int| 0 <= k < m < blocks@.len() implies (
            #[trigger] blocks@[k]).cell() != (#[trigger] blocks@[m]).cell() by {
                assert(self.places@[(self.cells@[k].col, self.cells@[k].row)] == k);
                assert(self.places@[(self.cells@[m].col, self.cells@[m].row)] == m);
            }
        }
        blocks
    }

    /// `b` is the block of the cell filed at `k`, with the points `pts`.
    spec fn block_at(self, b: Block, k: int, pts: Seq<IndexedPoint>) -> bool {
        let c = self.cells@[k];
        &&& b.cell() == (c.col, c.row)
        &&& b.id == block_number(c.row as int, c.col as int, self.cols() as int)
        &&& b.holds(pts)
    }

    /// Nothing was ever spilled for a cell that received nothing.
    proof fn lemma_untouched(self, before: Self, c: CellKey)
        requires
            before.consistent(),
            !before.places@.dom().contains(c),
        ensures
            spilled_of(before.written@, c).len() == 0,
            file_count(before.written@, c) == 0,
    {
        lemma_none_spilled(before.written@, before.places@, c);
    }
}

proof fn lemma_none_spilled(files: Seq<SpillFile>, places: Map<CellKey, usize>, c: CellKey)
    requires
        forall|k: int|
            0 <= k < files.len() ==> places.dom().contains((#[trigger] files[k]).cell()),
        !places.dom().contains(c),
    ensures
        spilled_of(files, c).len() == 0,
        file_count(files, c) == 0,
    decreases files.len(),
{
    if files.len() > 0 {
        assert(places.dom().contains(files[files.len() - 1].cell()));
        assert forall|k: int| 0 <= k < files.drop_last().len() implies places.dom().contains(
            (#[trigger] files.drop_last()[k]).cell(),
        ) by {
            assert(places.dom().contains(files[k].cell()));
        }
        lemma_none_spilled(files.drop_last(), places, c);
    }
}

/// The same files, as far as cells and points go.
pub open spec fn same_contents(a: Seq<SpillFile>, b: Seq<SpillFile>) -> bool {
    &&& a.len() == b.len()
    &&& forall|k: int|
        0 <= k < a.len() ==> (#[trigger] a[k]).cell() == b[k].cell() && a[k].points@
            == b[k].points@
}

/// Spilling loses and reorders nothing: where the spill files are read back as
/// they were handed out, the merged points of a cell are the points that it
/// received, in stream order.
pub proof fn law_spill_merge_is_lossless(p: BlockPartitioner, recovered: Seq<SpillFile>, c: CellKey)
    requires
        same_contents(p.written(), recovered),
    ensures
        spilled_of(recovered, c) + p.held(c) == p.received(c),
{
    lemma_same_spilled(p.written(), recovered, c);
}

proof fn lemma_same_spilled(a: Seq<SpillFile>, b: Seq<SpillFile>, c: CellKey)
    requires
        same_contents(a, b),
    ensures
        spilled_of(a, c) == spilled_of(b, c),
    decreases a.len(),
{
    if a.len() > 0 {
        assert forall|k: int| 0 <= k < a.drop_last().len() implies (
        #[trigger] a.drop_last()[k]).cell() == b.drop_last()[k].cell() && a.drop_last()[k].points@
            == b.drop_last()[k].points@ by {
            assert(a[k].cell() == b[k].cell());
        }
        lemma_same_spilled(a.drop_last(), b.drop_last(), c);
        assert(a[a.len() - 1].cell() == b[a.len() - 1].cell());
    }
}

/// However many points were added, those held in memory stay below the
/// high-water mark.
pub proof fn law_memory_is_bounded(p: BlockPartitioner, c: CellKey)
    requires
        p.wf(),
    ensures
        p.buffered() < SPILL_HIGH_WATER_BYTES,
        39 * p.held(c).len() <= p.buffered(),
{
    if p.places@.dom().contains(c) {
        lemma_held_share(p.cells@, p.places@[c] as int);
    }
}

proof fn lemma_held_share(cells: Seq<Cell>, i: int)
    requires
        0 <= i < cells.len(),
    ensures
        cells[i].points@.len() <= held_total(cells),
    decreases cells.len(),
{
    if i < cells.len() - 1 {
        lemma_held_share(cells.drop_last(), i);
    }
}

/// A spill file adds its points to its own cell, behind those of earlier files,
/// and to no other.
pub proof fn law_a_file_adds_to_its_cell(files: Seq<SpillFile>, f: SpillFile, c: CellKey)
    ensures
        f.col == c.0 && f.row == c.1 ==> spilled_of(files.push(f), c) == spilled_of(files, c)
            + f.points@,
        f.col != c.0 || f.row != c.1 ==> spilled_of(files.push(f), c) == spilled_of(files, c),
        spilled_of(Seq::<SpillFile>::empty(), c) == Seq::<IndexedPoint>::empty(),
{
    assert(files.push(f).drop_last() =~= files);
}

/// The number of a cell's files and of the points of all files.
pub proof fn law_files_are_counted(files: Seq<SpillFile>, c: CellKey)
    ensures
        file_count(files, c) == places(
            |k: int| files[k].col == c.0 && files[k].row == c.1,
            files.len() as int,
        ).len(),
        file_points(files) == sum_of(
            Seq::new(files.len(), |k: int| files[k].points@.len() as int),
        ),
    decreases files.len(),
{
    let n = files.len() as int;
    let p = |k: int| files[k].col == c.0 && files[k].row == c.1;
    lemma_places_step(p, n);
    if n > 0 {
        let rest = files.drop_last();
        law_files_are_counted(rest, c);
        let q = |k: int| rest[k].col == c.0 && rest[k].row == c.1;
        assert(places(p, n - 1) =~= places(q, n - 1)) by {
            assert forall|k: int| 0 <= k < n - 1 implies #[trigger] files[k] == rest[k] by {}
        }
        assert(Seq::new(files.len(), |k: int| files[k].points@.len() as int).drop_last()
            =~= Seq::new(rest.len(), |k: int| rest[k].points@.len() as int));
    }
}

/// Parts that are read back stand one behind the other.
pub proof fn law_parts_are_joined_in_order(parts: Seq<Vec<IndexedPoint>>, i: int, j: int)
    requires
        0 <= i < parts.len(),
        0 <= j < parts[i]@.len(),
    ensures
        joined(parts.take(i)).len() + j < joined(parts).len(),
        joined(parts)[joined(parts.take(i)).len() + j] == parts[i]@[j],
    decreases parts.len(),
{
    let rest = parts.drop_last();
    if i < rest.len() {
        law_parts_are_joined_in_order(rest, i, j);
        assert(rest.take(i) =~= parts.take(i));
    } else {
        assert(parts.take(i) =~= rest);
    }
}

} // verus!
