//! The occupancy index: which cells of the grid are taken, and by what.
//! The plane has no bounds and is mostly empty, so the index is sparse.

use std::collections::HashMap;
use vstd::prelude::*;

verus! {

broadcast use vstd::std_specs::hash::group_hash_axioms;

/// What takes a cell.
#[derive(Clone, Copy, Debug, PartialEq, Eq, Structural)]
pub enum CellType {
    Road,
    Building,
}

/// A sparse map from grid cells to what takes them. A cell without an
/// entry is free.
pub struct OccupancyIndex {
    cells: HashMap<u64, CellType>,
}

/// The number under which a cell is kept: its two coordinates, each moved
/// into the unsigned range, side by side.
pub closed spec fn cell_key(cell: (i32, i32)) -> u64 {
    ((cell.0 + 0x8000_0000) * 0x1_0000_0000 + (cell.1 + 0x8000_0000)) as u64
}

/// Two cells are kept under one number only if they are one cell.
proof fn lemma_cell_key_injective(a: (i32, i32), b: (i32, i32))
    ensures
        cell_key(a) == cell_key(b) <==> a == b,
{
}

/// The number under which `cell` is kept.
fn key_of(cell: (i32, i32)) -> (k: u64)
    ensures
        k == cell_key(cell),
{
    let col: u64 = (cell.0 as i64 + 0x8000_0000) as u64;
    let row: u64 = (cell.1 as i64 + 0x8000_0000) as u64;
    col * 0x1_0000_0000 + row
}

impl View for OccupancyIndex {
    type V = Map<(i32, i32), CellType>;

    closed spec fn view(&self) -> Map<(i32, i32), CellType> {
        Map::new(
            |c: (i32, i32)| self.cells@.contains_key(cell_key(c)),
            |c: (i32, i32)| self.cells@[cell_key(c)],
        )
    }
}

impl OccupancyIndex {
    /// The tag of `cell`, if it has one.
    pub open spec fn tag_at(&self, cell: (i32, i32)) -> Option<CellType> {
        if self@.contains_key(cell) {
            Some(self@[cell])
        } else {
            None
        }
    }

    /// An index in which every cell is free.
    pub fn new() -> (r: Self)
        ensures
            r@ == Map::<(i32, i32), CellType>::empty(),
    {
        let r = OccupancyIndex { cells: HashMap::new() };
        assert(r@ =~= Map::<(i32, i32), CellType>::empty());
        r
    }

    /// Tag `cell`, over whatever tag it had.
    pub fn mark(&mut self, cell: (i32, i32), tag: CellType)
        ensures
            final(self)@ == old(self)@.insert(cell, tag),
    {
        let k = key_of(cell);
        self.cells.insert(k, tag);
        proof {
            assert forall|c: (i32, i32)| cell_key(c) == k <==> c == cell by {
                lemma_cell_key_injective(c, cell);
            }
            assert(self@ =~= old(self)@.insert(cell, tag));
        }
    }

    /// Free `cell`.
    pub fn unmark(&mut self, cell: (i32, i32))
        ensures
            final(self)@ == old(self)@.remove(cell),
    {
        let k = key_of(cell);
        self.cells.remove(&k);
        proof {
            assert forall|c: (i32, i32)| cell_key(c) == k <==> c == cell by {
                lemma_cell_key_injective(c, cell);
            }
            assert(self@ =~= old(self)@.remove(cell));
        }
    }

    /// The tag of `cell`, or `None` where the cell is free.
    pub fn tag_of(&self, cell: (i32, i32)) -> (r: Option<CellType>)
        ensures
            r == self.tag_at(cell),
    {
        let k = key_of(cell);
        match self.cells.get(&k) {
            Some(tag) => Some(*tag),
            None => None,
        }
    }

    /// Whether `cell` has a tag.
    pub fn is_occupied(&self, cell: (i32, i32)) -> (r: bool)
        ensures
            r == self@.contains_key(cell),
    {
        let k = key_of(cell);
        self.cells.contains_key(&k)
    }

    /// Free every cell.
    pub fn clear(&mut self)
        ensures
            final(self)@ == Map::<(i32, i32), CellType>::empty(),
    {
        self.cells.clear();
        assert(self@ =~= Map::<(i32, i32), CellType>::empty());
    }
}

} // verus!
