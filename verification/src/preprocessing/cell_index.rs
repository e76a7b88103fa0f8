//! A map from grid cells to positions.

use std::collections::HashMap;

use vstd::prelude::*;

verus! {

/// A grid cell: its column and its row.
pub type CellKey = (i32, i32);

/// The one number that stands for a cell.
spec fn packed(c: CellKey) -> u64 {
    ((c.0 + 0x8000_0000) * 0x1_0000_0000 + (c.1 + 0x8000_0000)) as u64
}

proof fn lemma_packed_injective(a: CellKey, b: CellKey)
    ensures
        packed(a) == packed(b) ==> a == b,
{
}

fn pack(col: i32, row: i32) -> (r: u64)
    ensures
        r == packed((col, row)),
{
    let c: u64 = (col as i64 + 0x8000_0000) as u64;
    let w: u64 = (row as i64 + 0x8000_0000) as u64;
    c * 0x1_0000_0000 + w
}

/// Positions filed under grid cells.
pub struct CellIndex {
    map: HashMap<u64, usize>,
}

impl View for CellIndex {
    type V = Map<CellKey, usize>;

    closed spec fn view(&self) -> Map<CellKey, usize> {
        Map::new(
            |c: CellKey| self.map@.dom().contains(packed(c)),
            |c: CellKey| self.map@[packed(c)],
        )
    }
}

impl CellIndex {
    pub fn new() -> (r: Self)
        ensures
            r@ == Map::<CellKey, usize>::empty(),
    {
        broadcast use vstd::std_specs::hash::group_hash_axioms;

        let r = CellIndex { map: HashMap::new() };
        assert(r@ =~= Map::<CellKey, usize>::empty());
        r
    }

    pub fn get(&self, col: i32, row: i32) -> (r: Option<usize>)
        ensures
            match r {
                Some(i) => self@.dom().contains((col, row)) && self@[(col, row)] == i,
                None => !self@.dom().contains((col, row)),
            },
    {
        broadcast use vstd::std_specs::hash::group_hash_axioms;

        let k: u64 = pack(col, row);
        match self.map.get(&k) {
            Some(i) => Some(*i),
            None => None,
        }
    }

    pub fn insert(&mut self, col: i32, row: i32, position: usize)
        ensures
            final(self)@ == old(self)@.insert((col, row), position),
    {
        broadcast use vstd::std_specs::hash::group_hash_axioms;

        let k: u64 = pack(col, row);
        self.map.insert(k, position);
        proof {
            assert forall|c: CellKey| #[trigger] packed(c) == packed((col, row)) implies c == (col, row) by {
                lemma_packed_injective(c, (col, row));
            }
            assert(self@ =~= old(self)@.insert((col, row), position));
        }
    }
}

} // verus!
