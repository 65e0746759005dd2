//! The synchronous propagation sweep.

use crate::cell::{cell_wf, cells_wf, copy_cell, same_cell, tile_range, Cell};
use crate::geometry::{lemma_coordinates, neighbor, Direction};
use crate::tileset::{indices, Tile, Tileset};
use vstd::prelude::*;

verus! {

broadcast use {
    vstd::seq_lib::group_seq_lib_default,
    vstd::seq::Seq::lemma_filter_push,
    vstd::seq::Seq::lemma_filter_contains_rev,
};

/// Some tile still possible in cell `c` lets tile `t` stand on its side `d`.
pub open spec fn permits(tiles: Seq<Tile>, c: Cell, d: Direction, t: usize) -> bool {
    exists|j: int|
        0 <= j < c.sockets@.len() && (#[trigger] tiles[c.sockets@[j] as int]).adjacent(d).contains(t)
}

/// The test that cell `c` permits a tile on its side `d`.
pub open spec fn permitted_by(tiles: Seq<Tile>, c: Cell, d: Direction) -> spec_fn(usize) -> bool {
    |t: usize| permits(tiles, c, d, t)
}

/// `s` narrowed by the neighbour of position `i` on side `d`, if any: only
/// the tiles that the neighbour permits on its side facing `i` remain.
pub open spec fn restrict(tiles: Seq<Tile>, cells: Seq<Cell>, dim: int, i: int, d: Direction, s: Seq<usize>) -> Seq<usize> {
    match neighbor(dim, i, d) {
        Some(p) => s.filter(permitted_by(tiles, cells[p], d.opposite())),
        None => s,
    }
}

/// Tile `t` may stand at position `i`: every neighbour that exists permits
/// it on its side facing `i`.
pub open spec fn admissible(tiles: Seq<Tile>, cells: Seq<Cell>, dim: int, i: int, t: usize) -> bool {
    forall|d: Direction|
        #[trigger] neighbor(dim, i, d) matches Some(p) ==> permits(tiles, cells[p], d.opposite(), t)
}

/// The test that a tile may stand at position `i`.
pub open spec fn admissible_at(tiles: Seq<Tile>, cells: Seq<Cell>, dim: int, i: int) -> spec_fn(usize) -> bool {
    |t: usize| admissible(tiles, cells, dim, i, t)
}

/// The possible tiles of open position `i` after one sweep: the tile
/// indices, in order, that every neighbour permits.
pub open spec fn recomputed(tiles: Seq<Tile>, cells: Seq<Cell>, dim: int, i: int) -> Seq<usize> {
    indices(tiles.len()).filter(admissible_at(tiles, cells, dim, i))
}

/// The test of side `d` alone: the neighbour there, if any, permits the tile.
pub open spec fn side_test(tiles: Seq<Tile>, cells: Seq<Cell>, dim: int, i: int, d: Direction) -> spec_fn(usize) -> bool {
    |t: usize| neighbor(dim, i, d) matches Some(p) ==> permits(tiles, cells[p], d.opposite(), t)
}

/// Filtering by a test that holds everywhere keeps the sequence.
proof fn lemma_filter_all(s: Seq<usize>, p: spec_fn(usize) -> bool)
    requires
        forall|x: usize| #[trigger] p(x),
    ensures
        s.filter(p) == s,
    decreases s.len(),
{
    if s.len() == 0 {
        assert(s.filter(p) =~= s);
    } else {
        lemma_filter_all(s.drop_last(), p);
        assert(s.drop_last().push(s.last()) =~= s);
    }
}

/// Filtering twice is filtering once by both tests.
proof fn lemma_filter_twice(s: Seq<usize>, p: spec_fn(usize) -> bool, q: spec_fn(usize) -> bool)
    ensures
        s.filter(p).filter(q) == s.filter(|x: usize| p(x) && q(x)),
    decreases s.len(),
{
    if s.len() == 0 {
        assert(s.filter(p).filter(q) =~= s.filter(|x: usize| p(x) && q(x)));
    } else {
        lemma_filter_twice(s.drop_last(), p, q);
        assert(s.drop_last().push(s.last()) =~= s);
    }
}

/// Narrowing by one neighbour is filtering by the test of its side.
proof fn lemma_restrict_is_filter(tiles: Seq<Tile>, cells: Seq<Cell>, dim: int, i: int, d: Direction, s: Seq<usize>)
    ensures
        restrict(tiles, cells, dim, i, d, s) == s.filter(side_test(tiles, cells, dim, i, d)),
{
    if let Some(p) = neighbor(dim, i, d) {
        assert(permitted_by(tiles, cells[p], d.opposite()) =~= side_test(tiles, cells, dim, i, d));
    } else {
        lemma_filter_all(s, side_test(tiles, cells, dim, i, d));
    }
}

/// Narrowing by the four neighbours in turn, as the sweep does, gives the
/// recomputed tiles.
proof fn lemma_narrowing_recomputes(tiles: Seq<Tile>, cells: Seq<Cell>, dim: int, i: int)
    ensures
        restrict(
            tiles,
            cells,
            dim,
            i,
            Direction::Left,
            restrict(
                tiles,
                cells,
                dim,
                i,
                Direction::Down,
                restrict(
                    tiles,
                    cells,
                    dim,
                    i,
                    Direction::Right,
                    restrict(tiles, cells, dim, i, Direction::Up, indices(tiles.len())),
                ),
            ),
        ) == recomputed(tiles, cells, dim, i),
{
    let s0 = indices(tiles.len());
    let up = side_test(tiles, cells, dim, i, Direction::Up);
    let right = side_test(tiles, cells, dim, i, Direction::Right);
    let down = side_test(tiles, cells, dim, i, Direction::Down);
    let left = side_test(tiles, cells, dim, i, Direction::Left);
    let s1 = restrict(tiles, cells, dim, i, Direction::Up, s0);
    let s2 = restrict(tiles, cells, dim, i, Direction::Right, s1);
    let s3 = restrict(tiles, cells, dim, i, Direction::Down, s2);
    lemma_restrict_is_filter(tiles, cells, dim, i, Direction::Up, s0);
    lemma_restrict_is_filter(tiles, cells, dim, i, Direction::Right, s1);
    lemma_restrict_is_filter(tiles, cells, dim, i, Direction::Down, s2);
    lemma_restrict_is_filter(tiles, cells, dim, i, Direction::Left, s3);
    let p2 = |x: usize| up(x) && right(x);
    let p3 = |x: usize| p2(x) && down(x);
    let p4 = |x: usize| p3(x) && left(x);
    lemma_filter_twice(s0, up, right);
    lemma_filter_twice(s0, p2, down);
    lemma_filter_twice(s0, p3, left);
    assert forall|t: usize| #[trigger] p4(t) == admissible(tiles, cells, dim, i, t) by {
        if p4(t) {
            assert forall|d: Direction|
                #[trigger] neighbor(dim, i, d) matches Some(p) ==> permits(tiles, cells[p], d.opposite(), t) by {
                match d {
                    Direction::Up => assert(up(t)),
                    Direction::Right => assert(right(t)),
                    Direction::Down => assert(down(t)),
                    Direction::Left => assert(left(t)),
                }
            }
        }
    }
    assert(p4 =~= admissible_at(tiles, cells, dim, i));
}

/// `new` is `old` after one synchronous sweep: collapsed cells are kept,
/// every open cell is recomputed from the neighbours as they were in `old`.
pub open spec fn swept(tiles: Seq<Tile>, old: Seq<Cell>, new: Seq<Cell>, dim: int) -> bool {
    &&& new.len() == old.len()
    &&& forall|i: int|
        0 <= i < old.len() ==> if (#[trigger] old[i]).collapsed {
            same_cell(new[i], old[i])
        } else {
            &&& new[i].index == i
            &&& !new[i].collapsed
            &&& new[i].sockets@ == recomputed(tiles, old, dim, i)
        }
}

impl Tile {
    /// The adjacency list of side `d`.
    pub fn side(&self, d: Direction) -> (r: &Vec<usize>)
        ensures
            r@ == self.adjacent(d),
    {
        match d {
            Direction::Up => &self.up,
            Direction::Right => &self.right,
            Direction::Down => &self.down,
            Direction::Left => &self.left,
        }
    }
}

/// The adjacency lists of side `d` of the tiles `sockets`, joined in order.
pub open spec fn joined_sides(tiles: Seq<Tile>, sockets: Seq<usize>, d: Direction) -> Seq<usize>
    decreases sockets.len(),
{
    if sockets.len() == 0 {
        Seq::empty()
    } else {
        joined_sides(tiles, sockets.drop_last(), d) + tiles[sockets.last() as int].adjacent(d)
    }
}

/// Whether `x` occurs in `v`.
fn holds(v: &Vec<usize>, x: usize) -> (r: bool)
    ensures
        r == v@.contains(x),
{
    let mut k: usize = 0;
    while k < v.len()
        invariant
            k <= v@.len(),
            forall|j: int| 0 <= j < k ==> v@[j] != x,
        decreases v@.len() - k,
    {
        if v[k] == x {
            return true;
        }
        k = k + 1;
    }
    false
}

/// Every tile that some possible tile of `cell` lets stand on its side
/// `direction`.
fn get_valid_sockets(cell: &Cell, direction: Direction, tiles: &Tileset) -> (r: Vec<usize>)
    requires
        forall|j: int| 0 <= j < cell.sockets@.len() ==> #[trigger] cell.sockets@[j] < tiles.tiles@.len(),
    ensures
        r@ == joined_sides(tiles.tiles@, cell.sockets@, direction),
        forall|t: usize| r@.contains(t) <==> permits(tiles.tiles@, *cell, direction, t),
{
    let mut valid_sockets: Vec<usize> = Vec::new();
    let mut k: usize = 0;
    while k < cell.sockets.len()
        invariant
            k <= cell.sockets@.len(),
            forall|j: int| 0 <= j < cell.sockets@.len() ==> #[trigger] cell.sockets@[j] < tiles.tiles@.len(),
            forall|t: usize|
                valid_sockets@.contains(t) <==> exists|j: int|
                    0 <= j < k && (#[trigger] tiles.tiles@[cell.sockets@[j] as int]).adjacent(direction).contains(t),
            valid_sockets@ == joined_sides(tiles.tiles@, cell.sockets@.subrange(0, k as int), direction),
        decreases cell.sockets@.len() - k,
    {
        let socket = cell.sockets[k];
        let valid = tiles.tiles[socket].side(direction);
        let ghost before = valid_sockets@;
        let mut m: usize = 0;
        while m < valid.len()
            invariant
                m <= valid@.len(),
                valid_sockets@ == before + valid@.subrange(0, m as int),
            decreases valid@.len() - m,
        {
            valid_sockets.push(valid[m]);
            m = m + 1;
            assert(valid_sockets@ =~= before + valid@.subrange(0, m as int));
        }
        assert(valid@.subrange(0, m as int) =~= valid@);
        assert(cell.sockets@.subrange(0, k + 1).drop_last() =~= cell.sockets@.subrange(0, k as int));
        proof {
            assert forall|t: usize| valid_sockets@.contains(t) <==> exists|j: int|
                0 <= j < k + 1 && (#[trigger] tiles.tiles@[cell.sockets@[j] as int]).adjacent(direction).contains(t) by {
                if valid_sockets@.contains(t) {
                    let q = choose|q: int| 0 <= q < valid_sockets@.len() && valid_sockets@[q] == t;
                    if q >= before.len() {
                        assert(valid@[q - before.len()] == t);
                        assert(tiles.tiles@[cell.sockets@[k as int] as int].adjacent(direction).contains(t));
                    } else {
                        assert(before.contains(t));
                    }
                }
                if exists|j: int|
                    0 <= j < k + 1 && (#[trigger] tiles.tiles@[cell.sockets@[j] as int]).adjacent(direction).contains(t) {
                    let j = choose|j: int|
                        0 <= j < k + 1 && (#[trigger] tiles.tiles@[cell.sockets@[j] as int]).adjacent(direction).contains(t);
                    if j < k {
                        assert(before.contains(t));
                        let q = choose|q: int| 0 <= q < before.len() && before[q] == t;
                        assert(valid_sockets@[q] == t);
                    } else {
                        let q = choose|q: int| 0 <= q < valid@.len() && valid@[q] == t;
                        assert(valid_sockets@[before.len() + q] == t);
                    }
                }
            }
        }
        k = k + 1;
    }
    assert(cell.sockets@.subrange(0, k as int) =~= cell.sockets@);
    valid_sockets
}

/// Keeps in `sockets` only the tiles that `cell` permits on its side
/// `direction`, in their order.
fn cell_collapse(cell: &Cell, direction: Direction, sockets: &mut Vec<usize>, tiles: &Tileset)
    requires
        forall|j: int| 0 <= j < cell.sockets@.len() ==> #[trigger] cell.sockets@[j] < tiles.tiles@.len(),
    ensures
        final(sockets)@ == old(sockets)@.filter(permitted_by(tiles.tiles@, *cell, direction)),
{
    let valid_sockets = get_valid_sockets(cell, direction, tiles);
    let mut kept: Vec<usize> = Vec::new();
    let mut k: usize = 0;
    while k < sockets.len()
        invariant
            k <= sockets@.len(),
            forall|t: usize| valid_sockets@.contains(t) <==> permits(tiles.tiles@, *cell, direction, t),
            kept@ == sockets@.subrange(0, k as int).filter(permitted_by(tiles.tiles@, *cell, direction)),
        decreases sockets@.len() - k,
    {
        let socket = sockets[k];
        assert(sockets@.subrange(0, k + 1) =~= sockets@.subrange(0, k as int).push(socket));
        if holds(&valid_sockets, socket) {
            kept.push(socket);
        }
        k = k + 1;
    }
    assert(sockets@.subrange(0, k as int) =~= sockets@);
    *sockets = kept;
}

/// A sweep names only tiles of the set.
proof fn lemma_recomputed_bounded(tiles: Seq<Tile>, cells: Seq<Cell>, dim: int, i: int)
    ensures
        forall|j: int|
            0 <= j < recomputed(tiles, cells, dim, i).len() ==> #[trigger] recomputed(tiles, cells, dim, i)[j]
                < tiles.len(),
{
    let r = recomputed(tiles, cells, dim, i);
    assert forall|j: int| 0 <= j < r.len() implies #[trigger] r[j] < tiles.len() by {
        assert(r.contains(r[j]));
        assert(indices(tiles.len()).contains(r[j]));
    }
}

/// One synchronous propagation sweep: every open cell is recomputed from the
/// possible tiles of its neighbours as they stood before the sweep; the new
/// state is built apart and then replaces the old one.
pub fn wave_collapse(cells: &mut Vec<Cell>, dimension: usize, tileset: &Tileset)
    requires
        old(cells)@.len() == dimension * dimension,
        cells_wf(old(cells)@, tileset.tiles@.len()),
    ensures
        swept(tileset.tiles@, old(cells)@, final(cells)@, dimension as int),
        cells_wf(final(cells)@, tileset.tiles@.len()),
{
    let ghost before = cells@;
    let ghost tiles = tileset.tiles@;
    let ghost dim = dimension as int;
    let n = tileset.tiles.len();
    let total = cells.len();
    let mut next_grid: Vec<Cell> = Vec::new();
    let mut j: usize = 0;
    while j < dimension
        invariant
            cells@ == before,
            before.len() == dim * dim,
            total == before.len(),
            dim == dimension,
            tiles == tileset.tiles@,
            n == tiles.len(),
            cells_wf(before, n as nat),
            j <= dimension,
            next_grid@.len() == j * dim,
            forall|k: int| 0 <= k < next_grid@.len() ==> cell_wf(#[trigger] next_grid@[k], k, n as nat),
            forall|k: int|
                0 <= k < next_grid@.len() ==> if (#[trigger] before[k]).collapsed {
                    same_cell(next_grid@[k], before[k])
                } else {
                    &&& !next_grid@[k].collapsed
                    &&& next_grid@[k].sockets@ == recomputed(tiles, before, dim, k)
                },
        decreases dimension - j,
    {
        let mut i: usize = 0;
        while i < dimension
            invariant
                cells@ == before,
                before.len() == dim * dim,
                total == before.len(),
                dim == dimension,
                tiles == tileset.tiles@,
                n == tiles.len(),
                cells_wf(before, n as nat),
                j < dimension,
                i <= dimension,
                next_grid@.len() == j * dim + i,
                forall|k: int| 0 <= k < next_grid@.len() ==> cell_wf(#[trigger] next_grid@[k], k, n as nat),
                forall|k: int|
                    0 <= k < next_grid@.len() ==> if (#[trigger] before[k]).collapsed {
                        same_cell(next_grid@[k], before[k])
                    } else {
                        &&& !next_grid@[k].collapsed
                        &&& next_grid@[k].sockets@ == recomputed(tiles, before, dim, k)
                    },
            decreases dimension - i,
        {
            proof {
                lemma_coordinates(dim, i as int, j as int);
                assert((j as int) * dim + i == i + (j as int) * dim) by (nonlinear_arith);
                if j > 0 {
                    lemma_coordinates(dim, i as int, j - 1);
                    assert(i + (j - 1) * dim == i + j * dim - dim) by (nonlinear_arith);
                }
                if i + 1 < dimension {
                    lemma_coordinates(dim, i + 1, j as int);
                }
                if j + 1 < dimension {
                    lemma_coordinates(dim, i as int, j + 1);
                    assert(i + (j + 1) * dim == i + j * dim + dim) by (nonlinear_arith);
                }
            }
            let index = i + j * dimension;
            if cells[index].collapsed {
                let c = copy_cell(&cells[index]);
                assert(cell_wf(before[index as int], index as int, n as nat));
                assert(c.sockets@ == before[index as int].sockets@);
                next_grid.push(c);
            } else {
                let ghost s0 = indices(n as nat);
                let mut sockets = tile_range(n);
                // look up
                if j > 0 {
                    cell_collapse(&cells[index - dimension], Direction::Down, &mut sockets, tileset);
                }
                let ghost s1 = sockets@;
                assert(s1 == restrict(tiles, before, dim, index as int, Direction::Up, s0));
                // look right
                if i + 1 < dimension {
                    cell_collapse(&cells[index + 1], Direction::Left, &mut sockets, tileset);
                }
                let ghost s2 = sockets@;
                assert(s2 == restrict(tiles, before, dim, index as int, Direction::Right, s1));
                // look down
                if j + 1 < dimension {
                    cell_collapse(&cells[index + dimension], Direction::Up, &mut sockets, tileset);
                }
                let ghost s3 = sockets@;
                assert(s3 == restrict(tiles, before, dim, index as int, Direction::Down, s2));
                // look left
                if i > 0 {
                    cell_collapse(&cells[index - 1], Direction::Right, &mut sockets, tileset);
                }
                assert(sockets@ == restrict(tiles, before, dim, index as int, Direction::Left, s3));
                proof {
                    lemma_narrowing_recomputes(tiles, before, dim, index as int);
                    lemma_recomputed_bounded(tiles, before, dim, index as int);
                }
                assert(sockets@ == recomputed(tiles, before, dim, index as int));
                let c = Cell::from_list(index, sockets);
                assert(cell_wf(c, index as int, n as nat));
                next_grid.push(c);
            }
            i = i + 1;
        }
        j = j + 1;
        assert((j - 1) * dim + dim == j * dim) by (nonlinear_arith);
    }
    *cells = next_grid;
}

} // verus!
