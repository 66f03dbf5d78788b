//! A set of cell positions, as the game keeps the cells the player has
//! uncovered. Positions are pairs of `u8`: row and column.
use std::collections::HashSet;
use crate::grid::{grid_positions, lemma_grid_positions};
use vstd::prelude::*;

verus! {

broadcast use vstd::std_specs::hash::group_hash_axioms;

/// The key under which a position is stored: row times 256 plus column.
pub open spec fn cell_key(p: (int, int)) -> int {
    p.0 * 256 + p.1
}

/// A position whose row and column both fit in a `u8`.
pub open spec fn fits_u8(p: (int, int)) -> bool {
    0 <= p.0 < 256 && 0 <= p.1 < 256
}

/// A finite set of positions.
#[derive(Debug, PartialEq, Eq)]
pub struct CellSet {
    cells: HashSet<u16>,
}

impl View for CellSet {
    type V = Set<(int, int)>;

    closed spec fn view(&self) -> Set<(int, int)> {
        Set::new(|p: (int, int)| fits_u8(p) && self.cells@.contains(cell_key(p) as u16))
    }
}

impl CellSet {
    /// A set of positions is finite: it holds at most 256 * 256 positions.
    pub proof fn lemma_finite(&self)
        ensures
            self@.finite(),
            self@.len() <= 65536,
    {
        lemma_grid_positions(256, 256);
        assert(self@.subset_of(grid_positions(256, 256)));
        vstd::set_lib::lemma_len_subset(self@, grid_positions(256, 256));
    }

    /// The empty set.
    pub fn new() -> (s: Self)
        ensures
            s@ == Set::<(int, int)>::empty(),
    {
        let s = CellSet { cells: HashSet::new() };
        assert(s@ =~= Set::<(int, int)>::empty());
        s
    }

    /// Adds the position `(x, y)`; returns whether it was new.
    pub fn insert(&mut self, x: u8, y: u8) -> (added: bool)
        ensures
            final(self)@ == old(self)@.insert((x as int, y as int)),
            added == !old(self)@.contains((x as int, y as int)),
    {
        let key: u16 = (x as u16) * 256 + (y as u16);
        let ghost old_view = self@;
        let added = self.cells.insert(key);
        assert forall|p: (int, int)| fits_u8(p) && p != (x as int, y as int) implies (cell_key(p)
            as u16) != key by {}
        assert(self@ =~= old_view.insert((x as int, y as int)));
        added
    }

    /// Whether the position `(x, y)` is in the set.
    pub fn contains(&self, x: u8, y: u8) -> (found: bool)
        ensures
            found == self@.contains((x as int, y as int)),
    {
        let key: u16 = (x as u16) * 256 + (y as u16);
        self.cells.contains(&key)
    }
}

} // verus!
