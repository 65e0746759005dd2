//! Cells: a position of the grid and the tiles still possible there.

use crate::tileset::{copy_indices, indices};
use vstd::prelude::*;

verus! {

/// One position of the grid: its row-major index, whether it is fixed, and
/// the tile indices still possible for it.
#[derive(Clone, Debug)]
pub struct Cell {
    pub index: usize,
    pub collapsed: bool,
    pub sockets: Vec<usize>,
}

/// Cell `c` stands at position `i` and names only tiles below `n`; once
/// collapsed it holds exactly one.
pub open spec fn cell_wf(c: Cell, i: int, n: nat) -> bool {
    &&& c.index == i
    &&& forall|j: int| 0 <= j < c.sockets@.len() ==> #[trigger] c.sockets@[j] < n
    &&& c.collapsed ==> c.sockets@.len() == 1
}

/// Every cell of `cells` is well formed at its own position.
pub open spec fn cells_wf(cells: Seq<Cell>, n: nat) -> bool {
    forall|i: int| 0 <= i < cells.len() ==> cell_wf(#[trigger] cells[i], i, n)
}

/// The tile of a collapsed cell.
pub open spec fn tile_of(c: Cell) -> usize {
    c.sockets@[0]
}

/// Cells `a` and `b` agree in every field.
pub open spec fn same_cell(a: Cell, b: Cell) -> bool {
    a.index == b.index && a.collapsed == b.collapsed && a.sockets@ == b.sockets@
}

/// The tile indices `0..n`.
pub fn tile_range(n: usize) -> (r: Vec<usize>)
    ensures
        r@ == indices(n as nat),
{
    let mut r: Vec<usize> = Vec::new();
    let mut t: usize = 0;
    while t < n
        invariant
            t <= n,
            r@ == indices(t as nat),
        decreases n - t,
    {
        r.push(t);
        t = t + 1;
        assert(r@ =~= indices(t as nat));
    }
    r
}

impl Cell {
    /// A cell in full superposition over the tiles `0..value`.
    pub fn from_value(index: usize, value: usize) -> (c: Cell)
        ensures
            c.index == index,
            !c.collapsed,
            c.sockets@ == indices(value as nat),
    {
        Cell { index, collapsed: false, sockets: tile_range(value) }
    }

    /// An open cell with the given possible tiles.
    pub fn from_list(index: usize, value: Vec<usize>) -> (c: Cell)
        ensures
            c.index == index,
            !c.collapsed,
            c.sockets@ == value@,
    {
        Cell { index, collapsed: false, sockets: value }
    }

    /// Fixes the cell to `tile`.
    pub fn collapse_to(&mut self, tile: usize)
        ensures
            final(self).index == old(self).index,
            final(self).collapsed,
            final(self).sockets@ == seq![tile],
    {
        self.collapsed = true;
        self.sockets = vec![tile];
    }
}

/// A copy of `c`.
pub fn copy_cell(c: &Cell) -> (r: Cell)
    ensures
        same_cell(r, *c),
{
    let sockets = copy_indices(&c.sockets);
    Cell { index: c.index, collapsed: c.collapsed, sockets }
}

/// A copy of every cell of `cells`.
pub fn copy_cells(cells: &Vec<Cell>) -> (r: Vec<Cell>)
    ensures
        r@.len() == cells@.len(),
        forall|i: int| 0 <= i < cells@.len() ==> same_cell(#[trigger] r@[i], cells@[i]),
{
    let mut r: Vec<Cell> = Vec::new();
    let mut i: usize = 0;
    while i < cells.len()
        invariant
            i <= cells@.len(),
            r@.len() == i,
            forall|k: int| 0 <= k < i ==> same_cell(#[trigger] r@[k], cells@[k]),
        decreases cells@.len() - i,
    {
        r.push(copy_cell(&cells[i]));
        i = i + 1;
    }
    r
}

} // verus!
