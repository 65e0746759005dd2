//! The state that a collapse keeps from step to step, and why it holds.

use crate::cell::{cell_wf, cells_wf, same_cell, tile_of, Cell};
use crate::entropy::all_collapsed;
use crate::geometry::{lemma_neighbor_symmetric, neighbor, Direction};
use crate::propagate::{admissible_at, permits, recomputed, swept};
use crate::tileset::{adjacency_symmetric, indices, Tile};
use vstd::prelude::*;

verus! {

broadcast use {
    vstd::seq_lib::group_seq_lib_default,
    vstd::seq::Seq::lemma_filter_contains_rev,
};

/// Every two neighbouring collapsed cells agree: the tile of the second is
/// in the first's tile's list for the side that faces the second.
pub open spec fn collapsed_agree(tiles: Seq<Tile>, cells: Seq<Cell>, dim: int) -> bool {
    forall|i: int, d: Direction|
        #![trigger cells[i], neighbor(dim, i, d)]
        0 <= i < cells.len() ==> (neighbor(dim, i, d) matches Some(p) ==> (cells[i].collapsed
            && cells[p].collapsed ==> tiles[tile_of(cells[i]) as int].adjacent(d).contains(
            tile_of(cells[p]),
        )))
}

/// Every open cell next to a collapsed one keeps only tiles that the
/// collapsed one's tile allows on its side facing it.
pub open spec fn open_restricted(tiles: Seq<Tile>, cells: Seq<Cell>, dim: int) -> bool {
    forall|i: int, d: Direction|
        #![trigger cells[i], neighbor(dim, i, d)]
        0 <= i < cells.len() ==> (neighbor(dim, i, d) matches Some(p) ==> (!cells[i].collapsed
            && cells[p].collapsed ==> forall|j: int|
            0 <= j < cells[i].sockets@.len() ==> tiles[tile_of(cells[p]) as int].adjacent(
                d.opposite(),
            ).contains(#[trigger] cells[i].sockets@[j])))
}

/// The state that every step of a collapse keeps.
pub open spec fn settled(tiles: Seq<Tile>, cells: Seq<Cell>, dim: int) -> bool {
    collapsed_agree(tiles, cells, dim) && open_restricted(tiles, cells, dim)
}

/// Every two neighbouring cells carry tiles that may stand side by side.
pub open spec fn consistent(tiles: Seq<Tile>, cells: Seq<Cell>, dim: int) -> bool {
    forall|i: int, d: Direction|
        #![trigger cells[i], neighbor(dim, i, d)]
        0 <= i < cells.len() ==> (neighbor(dim, i, d) matches Some(p) ==> tiles[tile_of(
            cells[i],
        ) as int].adjacent(d).contains(tile_of(cells[p])))
}

/// The number of open cells among the first `k` of `cells`.
pub open spec fn open_count(cells: Seq<Cell>, k: int) -> nat
    decreases k,
{
    if k <= 0 {
        0
    } else {
        open_count(cells, k - 1) + if cells[k - 1].collapsed {
            0nat
        } else {
            1nat
        }
    }
}

/// `new` is `old` with position `c` fixed to tile `t`.
pub open spec fn fixed_at(old: Seq<Cell>, new: Seq<Cell>, c: int, t: usize) -> bool {
    &&& new.len() == old.len()
    &&& new[c].index == old[c].index
    &&& new[c].collapsed
    &&& new[c].sockets@ == seq![t]
    &&& forall|k: int| 0 <= k < old.len() && k != c ==> same_cell(#[trigger] new[k], old[k])
}

/// Whether `x` is in `s.filter(p)` tells that `p` holds of it.
pub(crate) proof fn lemma_filter_member(s: Seq<usize>, p: spec_fn(usize) -> bool, x: usize)
    requires
        s.filter(p).contains(x),
    ensures
        p(x),
        s.contains(x),
{
    let q = choose|q: int| 0 <= q < s.filter(p).len() && s.filter(p)[q] == x;
    assert(p(s.filter(p)[q]));
}

/// Every tile left by a sweep in position `i` is permitted by each neighbour.
pub(crate) proof fn lemma_recomputed_permits(tiles: Seq<Tile>, cells: Seq<Cell>, dim: int, i: int, x: usize)
    requires
        recomputed(tiles, cells, dim, i).contains(x),
    ensures
        forall|d: Direction|
            #[trigger] neighbor(dim, i, d) matches Some(p) ==> permits(tiles, cells[p], d.opposite(), x),
{
    lemma_filter_member(indices(tiles.len()), admissible_at(tiles, cells, dim, i), x);
}

/// A grid of positive size has a positive side.
pub(crate) proof fn lemma_side_positive(dim: int, i: int)
    requires
        0 <= dim,
        0 <= i < dim * dim,
    ensures
        0 < dim,
{
    if dim == 0 {
        assert(dim * dim == 0);
    }
}

/// A sweep keeps collapsed neighbours in agreement.
pub(crate) proof fn lemma_sweep_agrees(tiles: Seq<Tile>, old: Seq<Cell>, new: Seq<Cell>, dim: int)
    requires
        0 <= dim,
        old.len() == dim * dim,
        cells_wf(old, tiles.len()),
        collapsed_agree(tiles, old, dim),
        swept(tiles, old, new, dim),
    ensures
        collapsed_agree(tiles, new, dim),
{
    assert forall|i: int, d: Direction|
        #![trigger new[i], neighbor(dim, i, d)]
        0 <= i < new.len() implies (neighbor(dim, i, d) matches Some(p) ==> (new[i].collapsed
        && new[p].collapsed ==> tiles[tile_of(new[i]) as int].adjacent(d).contains(tile_of(new[p])))) by {
        lemma_side_positive(dim, i);
        lemma_neighbor_symmetric(dim, i, d);
        if let Some(p) = neighbor(dim, i, d) {
            assert(old[i].collapsed == new[i].collapsed);
            assert(old[p].collapsed == new[p].collapsed);
        }
    }
}

/// After a sweep every open cell keeps only tiles that its collapsed
/// neighbours allow.
pub(crate) proof fn lemma_sweep_restricts(tiles: Seq<Tile>, old: Seq<Cell>, new: Seq<Cell>, dim: int)
    requires
        0 <= dim,
        old.len() == dim * dim,
        cells_wf(old, tiles.len()),
        collapsed_agree(tiles, old, dim),
        swept(tiles, old, new, dim),
    ensures
        open_restricted(tiles, new, dim),
{
    assert forall|i: int, d: Direction|
        #![trigger new[i], neighbor(dim, i, d)]
        0 <= i < new.len() implies (neighbor(dim, i, d) matches Some(p) ==> (!new[i].collapsed
        && new[p].collapsed ==> forall|j: int|
        0 <= j < new[i].sockets@.len() ==> tiles[tile_of(new[p]) as int].adjacent(d.opposite()).contains(
            #[trigger] new[i].sockets@[j],
        ))) by {
        lemma_side_positive(dim, i);
        lemma_neighbor_symmetric(dim, i, d);
        if let Some(p) = neighbor(dim, i, d) {
            assert(old[i].collapsed == new[i].collapsed);
            assert(old[p].collapsed == new[p].collapsed);
            if !new[i].collapsed && new[p].collapsed {
                assert(cell_wf(old[p], p, tiles.len()));
                assert forall|j: int| 0 <= j < new[i].sockets@.len() implies tiles[tile_of(new[p]) as int].adjacent(
                    d.opposite(),
                ).contains(#[trigger] new[i].sockets@[j]) by {
                    let x = new[i].sockets@[j];
                    assert(recomputed(tiles, old, dim, i).contains(x));
                    lemma_recomputed_permits(tiles, old, dim, i, x);
                    assert(permits(tiles, old[p], d.opposite(), x));
                }
            }
        }
    }
}

/// Fixing an open cell to one of its possible tiles keeps neighbouring
/// collapsed cells in agreement, when adjacency is symmetric.
pub(crate) proof fn lemma_fix_agrees(tiles: Seq<Tile>, old: Seq<Cell>, new: Seq<Cell>, dim: int, c: int, t: usize)
    requires
        0 <= dim,
        old.len() == dim * dim,
        adjacency_symmetric(tiles),
        cells_wf(old, tiles.len()),
        settled(tiles, old, dim),
        0 <= c < old.len(),
        !old[c].collapsed,
        old[c].sockets@.contains(t),
        fixed_at(old, new, c, t),
    ensures
        collapsed_agree(tiles, new, dim),
        cells_wf(new, tiles.len()),
{
    assert(cell_wf(old[c], c, tiles.len()));
    assert(t < tiles.len());
    assert forall|i: int| 0 <= i < new.len() implies cell_wf(#[trigger] new[i], i, tiles.len()) by {
        if i != c {
            assert(cell_wf(old[i], i, tiles.len()));
            assert(same_cell(new[i], old[i]));
        }
    }
    assert forall|i: int, d: Direction|
        #![trigger new[i], neighbor(dim, i, d)]
        0 <= i < new.len() implies (neighbor(dim, i, d) matches Some(p) ==> (new[i].collapsed
        && new[p].collapsed ==> tiles[tile_of(new[i]) as int].adjacent(d).contains(tile_of(new[p])))) by {
        lemma_side_positive(dim, i);
        lemma_neighbor_symmetric(dim, i, d);
        if let Some(p) = neighbor(dim, i, d) {
            if new[i].collapsed && new[p].collapsed {
                assert(p != i);
                if i == c {
                    assert(same_cell(new[p], old[p]));
                    assert(cell_wf(old[p], p, tiles.len()));
                    let q = choose|q: int| 0 <= q < old[c].sockets@.len() && old[c].sockets@[q] == t;
                    assert(tiles[tile_of(old[p]) as int].adjacent(d.opposite()).contains(old[c].sockets@[q]));
                    assert(tiles[tile_of(old[p]) as int].adjacent(d.opposite()).contains(t as usize));
                    assert(tile_of(new[i]) == t);
                    let a = tile_of(old[p]) as int;
                    let b = t as int;
                    assert(0 <= a < tiles.len());
                    assert(tiles[a].adjacent(d.opposite()).contains(b as usize) <==> tiles[b].adjacent(
                        d.opposite().opposite(),
                    ).contains(a as usize));
                    assert(d.opposite().opposite() == d);
                    assert(tiles[tile_of(new[i]) as int].adjacent(d).contains(tile_of(new[p])));
                } else if p == c {
                    assert(same_cell(new[i], old[i]));
                    lemma_neighbor_symmetric(dim, p, d.opposite());
                    assert(neighbor(dim, p, d.opposite()) == Some(i));
                    let q = choose|q: int| 0 <= q < old[c].sockets@.len() && old[c].sockets@[q] == t;
                    assert(tiles[tile_of(old[i]) as int].adjacent(d.opposite().opposite()).contains(old[c].sockets@[q]));
                    assert(d.opposite().opposite() == d);
                    assert(tile_of(new[p]) == t);
                    assert(tiles[tile_of(new[i]) as int].adjacent(d).contains(tile_of(new[p])));
                } else {
                    assert(same_cell(new[i], old[i]));
                    assert(same_cell(new[p], old[p]));
                }
            }
        }
    }
}

/// Collapsing cells, and opening none, lowers the count of open cells.
pub(crate) proof fn lemma_open_count_mono(a: Seq<Cell>, b: Seq<Cell>, k: int, c: int)
    requires
        0 <= k <= a.len(),
        a.len() == b.len(),
        forall|i: int| 0 <= i < k ==> (#[trigger] a[i]).collapsed ==> b[i].collapsed,
    ensures
        open_count(b, k) <= open_count(a, k),
        0 <= c < k && !a[c].collapsed && b[c].collapsed ==> open_count(b, k) < open_count(a, k),
    decreases k,
{
    if k > 0 {
        lemma_open_count_mono(a, b, k - 1, c);
    }
}

/// Cells that agree field by field are alike in every property of a grid.
pub(crate) proof fn lemma_copies_alike(tiles: Seq<Tile>, a: Seq<Cell>, b: Seq<Cell>, dim: int)
    requires
        0 <= dim,
        a.len() == dim * dim,
        a.len() == b.len(),
        forall|i: int| 0 <= i < a.len() ==> same_cell(#[trigger] b[i], a[i]),
    ensures
        cells_wf(a, tiles.len()) ==> cells_wf(b, tiles.len()),
        settled(tiles, a, dim) ==> settled(tiles, b, dim),
        open_count(b, b.len() as int) == open_count(a, a.len() as int),
{
    lemma_open_count_mono(a, b, a.len() as int, 0);
    lemma_open_count_mono(b, a, a.len() as int, 0);
    if cells_wf(a, tiles.len()) {
        assert forall|i: int| 0 <= i < b.len() implies cell_wf(#[trigger] b[i], i, tiles.len()) by {
            assert(cell_wf(a[i], i, tiles.len()));
            assert(same_cell(b[i], a[i]));
        }
    }
    if settled(tiles, a, dim) {
        assert forall|i: int, d: Direction|
            #![trigger b[i], neighbor(dim, i, d)]
            0 <= i < b.len() implies (neighbor(dim, i, d) matches Some(p) ==> (b[i].collapsed
            && b[p].collapsed ==> tiles[tile_of(b[i]) as int].adjacent(d).contains(tile_of(b[p])))) by {
            lemma_side_positive(dim, i);
            lemma_neighbor_symmetric(dim, i, d);
            if let Some(p) = neighbor(dim, i, d) {
                assert(same_cell(b[i], a[i]) && same_cell(b[p], a[p]));
            }
        }
        assert forall|i: int, d: Direction|
            #![trigger b[i], neighbor(dim, i, d)]
            0 <= i < b.len() implies (neighbor(dim, i, d) matches Some(p) ==> (!b[i].collapsed
            && b[p].collapsed ==> forall|j: int|
            0 <= j < b[i].sockets@.len() ==> tiles[tile_of(b[p]) as int].adjacent(d.opposite()).contains(
                #[trigger] b[i].sockets@[j],
            ))) by {
            lemma_side_positive(dim, i);
            lemma_neighbor_symmetric(dim, i, d);
            if let Some(p) = neighbor(dim, i, d) {
                assert(same_cell(b[i], a[i]) && same_cell(b[p], a[p]));
            }
        }
    }
}

/// Every tile may stand beside every tile on every side.
pub open spec fn unconstrained(tiles: Seq<Tile>) -> bool {
    forall|a: int, d: Direction, t: int|
        0 <= a < tiles.len() && 0 <= t < tiles.len() ==> #[trigger] tiles[a].adjacent(d).contains(t as usize)
}

/// Every cell still has a possible tile.
pub open spec fn all_nonempty(cells: Seq<Cell>) -> bool {
    forall|i: int| 0 <= i < cells.len() ==> (#[trigger] cells[i]).sockets@.len() > 0
}

/// Over an unconstrained tileset a sweep leaves every cell with a possible
/// tile, when every cell had one before.
pub(crate) proof fn lemma_unconstrained_sweep(tiles: Seq<Tile>, old: Seq<Cell>, new: Seq<Cell>, dim: int)
    requires
        0 <= dim,
        old.len() == dim * dim,
        tiles.len() > 0,
        unconstrained(tiles),
        cells_wf(old, tiles.len()),
        all_nonempty(old),
        swept(tiles, old, new, dim),
    ensures
        all_nonempty(new),
{
    assert forall|i: int| 0 <= i < new.len() implies (#[trigger] new[i]).sockets@.len() > 0 by {
        if !old[i].collapsed {
            lemma_side_positive(dim, i);
            let s0 = indices(tiles.len());
            assert forall|d: Direction| #[trigger] neighbor(dim, i, d) matches Some(p) ==> permits(
                tiles,
                old[p],
                d.opposite(),
                0,
            ) by {
                lemma_neighbor_symmetric(dim, i, d);
                if let Some(p) = neighbor(dim, i, d) {
                    assert(old[p].sockets@.len() > 0);
                    assert(cell_wf(old[p], p, tiles.len()));
                    let a = old[p].sockets@[0] as int;
                    assert(tiles[a].adjacent(d.opposite()).contains(0int as usize));
                }
            }
            assert(s0[0] == 0usize);
            assert(admissible_at(tiles, old, dim, i)(s0[0]));
            assert(recomputed(tiles, old, dim, i).contains(s0[0]));
        }
    }
}

/// A grid without a collapsed cell is settled.
pub(crate) proof fn lemma_open_grid_settled(tiles: Seq<Tile>, cells: Seq<Cell>, dim: int)
    requires
        0 <= dim,
        cells.len() == dim * dim,
        forall|i: int| 0 <= i < cells.len() ==> !(#[trigger] cells[i]).collapsed,
    ensures
        settled(tiles, cells, dim),
{
    assert forall|i: int, d: Direction| 0 <= i < cells.len() implies #[trigger] neighbor(dim, i, d) matches Some(p)
        ==> 0 <= p < cells.len() by {
        lemma_side_positive(dim, i);
        lemma_neighbor_symmetric(dim, i, d);
    }
}

/// Once every cell is collapsed, a settled state is a consistent one.
pub(crate) proof fn lemma_complete_consistent(tiles: Seq<Tile>, cells: Seq<Cell>, dim: int)
    requires
        0 <= dim,
        cells.len() == dim * dim,
        all_collapsed(cells),
        settled(tiles, cells, dim),
    ensures
        consistent(tiles, cells, dim),
{
    assert forall|i: int, d: Direction|
        #![trigger cells[i], neighbor(dim, i, d)]
        0 <= i < cells.len() implies (neighbor(dim, i, d) matches Some(p) ==> tiles[tile_of(
            cells[i],
        ) as int].adjacent(d).contains(tile_of(cells[p]))) by {
        lemma_side_positive(dim, i);
        lemma_neighbor_symmetric(dim, i, d);
        if let Some(p) = neighbor(dim, i, d) {
            assert(cells[p].collapsed);
        }
    }
}

/// Fixing a cell to one of its possible tiles keeps the cells well formed.
pub(crate) proof fn lemma_fix_agrees_wf(tiles: Seq<Tile>, old: Seq<Cell>, new: Seq<Cell>, c: int, t: usize)
    requires
        cells_wf(old, tiles.len()),
        0 <= c < old.len(),
        old[c].sockets@.contains(t),
        fixed_at(old, new, c, t),
    ensures
        cells_wf(new, tiles.len()),
{
    assert(cell_wf(old[c], c, tiles.len()));
    assert forall|i: int| 0 <= i < new.len() implies cell_wf(#[trigger] new[i], i, tiles.len()) by {
        if i != c {
            assert(cell_wf(old[i], i, tiles.len()));
            assert(same_cell(new[i], old[i]));
        }
    }
}
} // verus!
