//! Sets of grid positions.

use std::collections::HashSet;
use vstd::prelude::*;
use crate::grid;
use crate::grid::{Cell, GridPos};

verus! {

/// A hash set of positions, each held as one integer key.
pub struct TileSet {
    keys: HashSet<i64>,
}

/// The key that stands for a cell with 32-bit coordinates.
spec fn cell_key(c: Cell) -> int {
    c.0 * 0x1_0000_0000 + (c.1 + 0x8000_0000)
}

fn pos_key(p: GridPos) -> (k: i64)
    ensures
        k == cell_key(p@),
{
    (p.x as i64) * 0x1_0000_0000 + (p.y as i64 + 0x8000_0000)
}

impl View for TileSet {
    type V = Set<Cell>;

    closed spec fn view(&self) -> Set<Cell> {
        Set::new(|c: Cell| grid::representable(c) && self.keys@.contains(cell_key(c) as i64))
    }
}

impl TileSet {
    /// The set with no positions.
    pub fn new() -> (s: TileSet)
        ensures
            s@ == Set::<Cell>::empty(),
    {
        let s = TileSet { keys: HashSet::new() };
        assert(s@ =~= Set::<Cell>::empty());
        s
    }

    /// True if `p` is in the set.
    pub fn contains(&self, p: &GridPos) -> (b: bool)
        ensures
            b == self@.contains(p@),
    {
        self.keys.contains(&pos_key(*p))
    }

    /// Adds `p`; true if it was not there before.
    pub fn insert(&mut self, p: GridPos) -> (added: bool)
        ensures
            final(self)@ == old(self)@.insert(p@),
            added == !old(self)@.contains(p@),
    {
        let added = self.keys.insert(pos_key(p));
        assert(self@ =~= old(self)@.insert(p@));
        added
    }

    /// Removes `p`; true if it was there.
    pub fn remove(&mut self, p: &GridPos) -> (removed: bool)
        ensures
            final(self)@ == old(self)@.remove(p@),
            removed == old(self)@.contains(p@),
    {
        let removed = self.keys.remove(&pos_key(*p));
        assert(self@ =~= old(self)@.remove(p@));
        removed
    }
}

} // verus!
