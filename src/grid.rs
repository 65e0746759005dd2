//! The grid and the collapse driver: select, fix, sweep, restart.

use crate::cell::{cell_wf, cells_wf, copy_cell, copy_cells, same_cell, Cell};
use crate::entropy::{all_collapsed, least_entropy, pick_cell_with_least_entropy};
use crate::geometry::Direction;
use crate::image::PixelImage;
use crate::propagate::{swept, wave_collapse};
use crate::region::{sorted_by_name, Region};
use crate::settle::{
    all_nonempty, consistent, fixed_at, lemma_complete_consistent, lemma_copies_alike, lemma_fix_agrees,
    lemma_fix_agrees_wf, lemma_open_count_mono, lemma_open_grid_settled, lemma_sweep_agrees, lemma_sweep_restricts,
    lemma_unconstrained_sweep, open_count, settled, unconstrained,
};
use crate::tileset::{
    accepted, catalog_error, copy_tile, established_size, indices, rects, regions_of, Tile, Tileset, TilesetError,
};
use rand::rngs::{OsRng, StdRng};
use rand::seq::SliceRandom;
use rand::SeedableRng;
use vstd::prelude::*;

verus! {

/// rand's seeded generator, carried through the collapse as an opaque value.
#[verifier::external_type_specification]
#[verifier::external_body]
pub struct ExStdRng(StdRng);

/// Relies on rand's `SliceRandom::choose` on a slice: `None` exactly when the
/// slice is empty, else one of its elements.
#[verifier::external_body]
fn choose_from(rng: &mut StdRng, items: &Vec<usize>) -> (r: Option<usize>)
    ensures
        r is None <==> items@.len() == 0,
        r matches Some(v) ==> items@.contains(v),
{
    items.as_slice().choose(rng).copied()
}

/// rand's error for a source of randomness that failed.
#[verifier::external_type_specification]
#[verifier::external_body]
pub struct ExRandError(rand::Error);

/// Relies on rand's `SeedableRng::from_rng` with `OsRng`: a generator seeded
/// from the operating system's source of randomness, or the error that the
/// source reported.
#[verifier::external_body]
fn os_seeded_rng() -> Result<StdRng, rand::Error> {
    StdRng::from_rng(OsRng)
}

/// How many restarts a collapse may make before it gives up.
pub const RESTART_BUDGET: usize = 1000;

/// A square grid of cells over a tileset, row by row.
#[derive(Clone, Debug)]
pub struct Grid {
    pub tileset: Tileset,
    pub cells: Vec<Cell>,
    pub dimension: usize,
}

/// Why a collapse produced no grid.
#[derive(Clone, Copy, Debug, PartialEq, Eq, Structural)]
pub enum CollapseError {
    /// The tileset has no tile.
    EmptyTileset,
    /// Every attempt within the restart budget ran into a contradiction.
    NonTermination,
    /// The operating system could not seed a generator.
    EntropyUnavailable,
}

impl Grid {
    /// The cells cover the square grid, each well formed, and the tileset
    /// names only its own tiles.
    pub open spec fn wf(&self) -> bool {
        &&& self.tileset.wf()
        &&& self.cells@.len() == self.dimension * self.dimension
        &&& cells_wf(self.cells@, self.tileset.tiles@.len())
    }

    /// Every cell is collapsed.
    pub open spec fn complete(&self) -> bool {
        all_collapsed(self.cells@)
    }

    /// The collapsed cells agree and constrain their open neighbours.
    pub open spec fn settled(&self) -> bool {
        settled(self.tileset.tiles@, self.cells@, self.dimension as int)
    }

    /// Every pair of neighbouring cells agrees.
    pub open spec fn consistent(&self) -> bool {
        consistent(self.tileset.tiles@, self.cells@, self.dimension as int)
    }
}

/// Fixes position `target` of `cells` to `tile`.
pub fn fix_cell(cells: &mut Vec<Cell>, target: usize, tile: usize)
    requires
        target < old(cells)@.len(),
    ensures
        fixed_at(old(cells)@, final(cells)@, target as int, tile),
{
    let mut cell = copy_cell(&cells[target]);
    cell.collapse_to(tile);
    cells.set(target, cell);
}

/// Picks one of the candidate positions at random and fixes it to one of its
/// possible tiles, also picked at random. Returns `false`, leaving the cells
/// as they were, when there is no candidate or the picked cell has no
/// possible tile left: a contradiction.
pub fn random_selection_of_sockets(rng: &mut StdRng, cells: &mut Vec<Cell>, candidates: &Vec<usize>) -> (r: bool)
    requires
        forall|q: int| 0 <= q < candidates@.len() ==> #[trigger] candidates@[q] < old(cells)@.len(),
    ensures
        r ==> exists|c: usize, t: usize|
            #![trigger candidates@.contains(c), old(cells)@[c as int].sockets@.contains(t)]
            candidates@.contains(c) && old(cells)@[c as int].sockets@.contains(t) && fixed_at(
                old(cells)@,
                final(cells)@,
                c as int,
                t,
            ),
        !r ==> final(cells)@ == old(cells)@,
        !r ==> candidates@.len() == 0 || exists|c: usize|
            #[trigger] candidates@.contains(c) && old(cells)@[c as int].sockets@.len() == 0,
{
    match choose_from(rng, candidates) {
        None => false,
        Some(c) => {
            let ghost q = choose|q: int| 0 <= q < candidates@.len() && candidates@[q] == c;
            assert(c < cells@.len());
            if cells[c].sockets.len() == 0 {
                return false;
            }
            match choose_from(rng, &cells[c].sockets) {
                None => false,
                Some(t) => {
                    let ghost before = cells@;
                    fix_cell(cells, c, t);
                    assert(candidates@.contains(c) && before[c as int].sockets@.contains(t));
                    true
                },
            }
        },
    }
}

impl Tileset {
    /// Same tiles, in the same order, as `other`.
    pub open spec fn same_as(&self, other: &Tileset) -> bool {
        &&& self.tile_size == other.tile_size
        &&& self.tiles@.len() == other.tiles@.len()
        &&& forall|k: int|
            0 <= k < self.tiles@.len() ==> {
                &&& (#[trigger] self.tiles@[k]).slice_name == other.tiles@[k].slice_name
                &&& self.tiles@[k].rect == other.tiles@[k].rect
                &&& forall|d: Direction| #[trigger] self.tiles@[k].adjacent(d) == other.tiles@[k].adjacent(d)
            }
    }

    /// A copy of the tileset.
    pub fn duplicate(&self) -> (r: Tileset)
        ensures
            r.same_as(self),
    {
        let mut tiles: Vec<Tile> = Vec::new();
        let mut k: usize = 0;
        while k < self.tiles.len()
            invariant
                k <= self.tiles@.len(),
                tiles@.len() == k,
                forall|m: int|
                    0 <= m < k ==> {
                        &&& (#[trigger] tiles@[m]).slice_name == self.tiles@[m].slice_name
                        &&& tiles@[m].rect == self.tiles@[m].rect
                        &&& forall|d: Direction| #[trigger] tiles@[m].adjacent(d) == self.tiles@[m].adjacent(d)
                    },
            decreases self.tiles@.len() - k,
        {
            let t = copy_tile(&self.tiles[k]);
            proof {
                assert forall|d: Direction| #[trigger] t.adjacent(d) == self.tiles@[k as int].adjacent(d) by {
                    match d {
                        Direction::Up => {},
                        Direction::Right => {},
                        Direction::Down => {},
                        Direction::Left => {},
                    }
                }
            }
            tiles.push(t);
            k = k + 1;
        }
        Tileset { tiles, tile_size: self.tile_size }
    }

    /// A fresh grid of `dimension` by `dimension` cells over this tileset,
    /// each in full superposition.
    pub fn create_grid(&self, dimension: usize) -> (g: Grid)
        requires
            dimension * dimension <= usize::MAX,
        ensures
            g.tileset.same_as(self),
            g.dimension == dimension,
            g.cells@.len() == dimension * dimension,
            g.settled(),
            self.wf() ==> g.wf(),
            forall|i: int|
                0 <= i < g.cells@.len() ==> {
                    &&& (#[trigger] g.cells@[i]).index == i
                    &&& !g.cells@[i].collapsed
                    &&& g.cells@[i].sockets@ == indices(self.tiles@.len())
                },
    {
        let total = dimension * dimension;
        let n = self.tiles.len();
        let mut cells: Vec<Cell> = Vec::new();
        let mut index: usize = 0;
        while index < total
            invariant
                index <= total,
                n == self.tiles@.len(),
                cells@.len() == index,
                forall|i: int|
                    0 <= i < index ==> {
                        &&& (#[trigger] cells@[i]).index == i
                        &&& !cells@[i].collapsed
                        &&& cells@[i].sockets@ == indices(n as nat)
                    },
            decreases total - index,
        {
            cells.push(Cell::from_value(index, n));
            index = index + 1;
        }
        let g = Grid { tileset: self.duplicate(), cells, dimension };
        proof {
            lemma_open_grid_settled(g.tileset.tiles@, g.cells@, dimension as int);
            if self.wf() {
                assert forall|a: int, d: Direction, j: int|
                    0 <= a < g.tileset.tiles@.len() && 0 <= j < g.tileset.tiles@[a].adjacent(d).len()
                        implies #[trigger] g.tileset.tiles@[a].adjacent(d)[j] < g.tileset.tiles@.len() by {
                    assert(g.tileset.tiles@[a].adjacent(d) == self.tiles@[a].adjacent(d));
                }
                assert forall|i: int| 0 <= i < g.cells@.len() implies cell_wf(#[trigger] g.cells@[i], i, n as nat) by {
                    assert(g.cells@[i].sockets@ == indices(n as nat));
                }
            }
        }
        g
    }
}

/// What a collapse of `old` into `new` with result `r` guarantees.
pub open spec fn collapse_outcome(old: Grid, new: Grid, r: Result<usize, CollapseError>) -> bool {
    &&& new.dimension == old.dimension
    &&& new.tileset == old.tileset
    &&& (old.tileset.tiles@.len() > 0 && old.complete() ==> r is Ok)
    &&& (old.tileset.tiles@.len() > 0 && unconstrained(old.tileset.tiles@) && all_nonempty(old.cells@) ==> r
        == Ok::<usize, CollapseError>(0))
    &&& match r {
        Err(CollapseError::EmptyTileset) => old.tileset.tiles@.len() == 0 && new.cells == old.cells,
        Err(CollapseError::NonTermination) => old.tileset.tiles@.len() > 0 && new.cells == old.cells,
        Err(CollapseError::EntropyUnavailable) => false,
        Ok(restarts) => {
            &&& old.tileset.tiles@.len() > 0
            &&& restarts <= RESTART_BUDGET
            &&& (old.complete() ==> restarts == 0)
            &&& new.wf()
            &&& new.complete()
            &&& forall|i: int|
                0 <= i < old.cells@.len() && (#[trigger] old.cells@[i]).collapsed ==> same_cell(new.cells@[i], old.cells@[i])
            &&& (old.settled() && old.tileset.symmetric() ==> new.consistent())
        },
    }
}

impl Grid {
    /// A grid of `dimension` by `dimension` open cells over the tileset of
    /// the atlas.
    pub fn new(image: &PixelImage, regions: &Vec<Region>, dimension: usize) -> (r: Result<Grid, TilesetError>)
        requires
            image.wf(),
            dimension * dimension <= usize::MAX,
        ensures
            match r {
                Err(e) => catalog_error(*image, regions@) == Some(e),
                Ok(g) => {
                    &&& catalog_error(*image, regions@).is_none()
                    &&& g.dimension == dimension
                    &&& g.wf()
                    &&& g.settled()
                    &&& g.tileset.symmetric()
                    &&& g.tileset.tile_size == established_size(regions@)
                    &&& regions_of(g.tileset.tiles@).to_multiset() == accepted(regions@, g.tileset.tile_size).to_multiset()
                    &&& sorted_by_name(regions_of(g.tileset.tiles@))
                    &&& g.tileset.derived_from(*image)
                    &&& forall|i: int|
                        0 <= i < g.cells@.len() ==> !(#[trigger] g.cells@[i]).collapsed && g.cells@[i].sockets@
                            == indices(g.tileset.tiles@.len())
                },
            },
    {
        let tileset = match Tileset::new(image, regions) {
            Ok(t) => t,
            Err(e) => {
                return Err(e);
            },
        };
        let g = tileset.create_grid(dimension);
        proof {
            tileset.lemma_derived_wf_symmetric(*image);
            assert(regions_of(g.tileset.tiles@) =~= regions_of(tileset.tiles@));
            assert(rects(g.tileset.tiles@) =~= rects(tileset.tiles@));
            assert(g.tileset.symmetric());
            assert(g.tileset.derived_from(*image));
        }
        Ok(g)
    }

    /// One step of the collapse loop on the working `cells`, after the random
    /// selection reported `selected`. A successful selection is followed by a
    /// propagation sweep. A contradiction restarts from the grid as it was
    /// given, counting one restart, or fails once the budget is spent.
    pub fn advance(&self, cells: &mut Vec<Cell>, restarts: &mut usize, selected: bool) -> (r: Result<(), CollapseError>)
        requires
            self.wf(),
            old(cells)@.len() == self.dimension * self.dimension,
            cells_wf(old(cells)@, self.tileset.tiles@.len()),
            *old(restarts) <= RESTART_BUDGET,
        ensures
            selected ==> {
                &&& r is Ok
                &&& *final(restarts) == *old(restarts)
                &&& swept(self.tileset.tiles@, old(cells)@, final(cells)@, self.dimension as int)
            },
            !selected && *old(restarts) == RESTART_BUDGET ==> {
                &&& r == Err::<(), CollapseError>(CollapseError::NonTermination)
                &&& *final(restarts) == *old(restarts)
                &&& final(cells)@ == old(cells)@
            },
            !selected && *old(restarts) < RESTART_BUDGET ==> {
                &&& r is Ok
                &&& *final(restarts) == *old(restarts) + 1
                &&& final(cells)@.len() == self.cells@.len()
                &&& forall|i: int| 0 <= i < self.cells@.len() ==> same_cell(#[trigger] final(cells)@[i], self.cells@[i])
            },
            cells_wf(final(cells)@, self.tileset.tiles@.len()),
            final(cells)@.len() == self.dimension * self.dimension,
    {
        if selected {
            wave_collapse(cells, self.dimension, &self.tileset);
            Ok(())
        } else if *restarts == RESTART_BUDGET {
            Err(CollapseError::NonTermination)
        } else {
            *restarts = *restarts + 1;
            *cells = copy_cells(&self.cells);
            proof {
                lemma_copies_alike(self.tileset.tiles@, self.cells@, cells@, self.dimension as int);
            }
            Ok(())
        }
    }

    /// Collapses the grid: repeatedly fixes one of the open cells of least
    /// entropy to one of its possible tiles, both picked with `rng`, and runs
    /// a propagation sweep; on a contradiction it starts over from the grid
    /// as it was given. Returns the number of restarts.
    pub fn collapse_with(&mut self, rng: &mut StdRng) -> (r: Result<usize, CollapseError>)
        requires
            old(self).wf(),
        ensures
            collapse_outcome(*old(self), *final(self), r),
    {
        if self.tileset.tiles.len() == 0 {
            return Err(CollapseError::EmptyTileset);
        }
        let ghost tiles = self.tileset.tiles@;
        let ghost dim = self.dimension as int;
        let ghost n = tiles.len();
        let mut cells = copy_cells(&self.cells);
        proof {
            lemma_copies_alike(tiles, self.cells@, cells@, dim);
            if all_nonempty(self.cells@) {
                assert forall|i: int| 0 <= i < cells@.len() implies (#[trigger] cells@[i]).sockets@.len() > 0 by {
                    assert(same_cell(cells@[i], self.cells@[i]));
                }
            }
            if all_collapsed(self.cells@) {
                assert forall|i: int| 0 <= i < cells@.len() implies (#[trigger] cells@[i]).collapsed by {
                    assert(same_cell(cells@[i], self.cells@[i]));
                }
            }
        }
        let mut restarts: usize = 0;
        loop
            invariant
                *self == *old(self),
                self.wf(),
                tiles == self.tileset.tiles@,
                n == tiles.len(),
                n > 0,
                dim == self.dimension,
                cells@.len() == dim * dim,
                cells_wf(cells@, n),
                restarts <= RESTART_BUDGET,
                self.settled() && self.tileset.symmetric() ==> settled(tiles, cells@, dim),
                all_collapsed(self.cells@) ==> restarts == 0 && all_collapsed(cells@),
                unconstrained(tiles) && all_nonempty(self.cells@) ==> restarts == 0 && all_nonempty(cells@),
                forall|i: int|
                    0 <= i < self.cells@.len() && (#[trigger] self.cells@[i]).collapsed ==> same_cell(
                        cells@[i],
                        self.cells@[i],
                    ),
            ensures
                all_collapsed(cells@),
            decreases RESTART_BUDGET - restarts, open_count(cells@, cells@.len() as int),
        {
            let candidates = pick_cell_with_least_entropy(&cells);
            if candidates.len() == 0 {
                assert(all_collapsed(cells@));
                break;
            }
            let ghost before = cells@;
            let ghost count_before = open_count(before, before.len() as int);
            let selected = random_selection_of_sockets(rng, &mut cells, &candidates);
            let ghost fixed = cells@;
            proof {
                if selected {
                    let (c, t) = choose|c: usize, t: usize|
                        #![trigger candidates@.contains(c), before[c as int].sockets@.contains(t)]
                        candidates@.contains(c) && before[c as int].sockets@.contains(t) && fixed_at(
                            before,
                            fixed,
                            c as int,
                            t,
                        );
                    let q = choose|q: int| 0 <= q < candidates@.len() && candidates@[q] == c;
                    assert(least_entropy(before, c as int));
                    if self.settled() && self.tileset.symmetric() {
                        lemma_fix_agrees(tiles, before, fixed, dim, c as int, t);
                    } else {
                        lemma_fix_agrees_wf(tiles, before, fixed, c as int, t);
                    }
                    lemma_open_count_mono(before, fixed, before.len() as int, c as int);
                    assert forall|i: int|
                        0 <= i < self.cells@.len() && (#[trigger] self.cells@[i]).collapsed implies same_cell(
                            fixed[i],
                            self.cells@[i],
                        ) by {
                        assert(same_cell(before[i], self.cells@[i]));
                        assert(i != c);
                    }
                    if all_nonempty(before) {
                        assert forall|i: int| 0 <= i < fixed.len() implies (#[trigger] fixed[i]).sockets@.len() > 0 by {
                            if i != c {
                                assert(same_cell(fixed[i], before[i]));
                            }
                        }
                    }
                } else if unconstrained(tiles) && all_nonempty(self.cells@) {
                    if candidates@.len() > 0 {
                        let c = choose|c: usize| #[trigger] candidates@.contains(c) && before[c as int].sockets@.len() == 0;
                        let q = choose|q: int| 0 <= q < candidates@.len() && candidates@[q] == c;
                        assert(before[c as int].sockets@.len() > 0);
                    }
                }
            }
            let ghost restarts_before = restarts;
            match self.advance(&mut cells, &mut restarts, selected) {
                Ok(()) => {},
                Err(e) => {
                    return Err(e);
                },
            }
            proof {
                if selected {
                    if self.settled() && self.tileset.symmetric() {
                        lemma_sweep_agrees(tiles, fixed, cells@, dim);
                        lemma_sweep_restricts(tiles, fixed, cells@, dim);
                    }
                    if unconstrained(tiles) && all_nonempty(self.cells@) {
                        lemma_unconstrained_sweep(tiles, fixed, cells@, dim);
                    }
                    lemma_open_count_mono(fixed, cells@, fixed.len() as int, 0);
                    assert forall|i: int|
                        0 <= i < self.cells@.len() && (#[trigger] self.cells@[i]).collapsed implies same_cell(
                            cells@[i],
                            self.cells@[i],
                        ) by {
                        assert(same_cell(fixed[i], self.cells@[i]));
                        assert(fixed[i].collapsed);
                    }
                } else {
                    lemma_copies_alike(tiles, self.cells@, cells@, dim);
                }
            }
        }
        proof {
            if self.settled() && self.tileset.symmetric() {
                lemma_complete_consistent(tiles, cells@, dim);
            }
        }
        self.cells = cells;
        Ok(restarts)
    }

    /// Collapses the grid with a generator seeded by the operating system;
    /// reports `EntropyUnavailable`, leaving the grid as it was, when the
    /// operating system cannot seed one.
    pub fn collapse(&mut self) -> (r: Result<usize, CollapseError>)
        requires
            old(self).wf(),
        ensures
            r == Err::<usize, CollapseError>(CollapseError::EntropyUnavailable) ==> *final(self) == *old(self),
            r != Err::<usize, CollapseError>(CollapseError::EntropyUnavailable) ==> collapse_outcome(
                *old(self),
                *final(self),
                r,
            ),
            r == Err::<usize, CollapseError>(CollapseError::EmptyTileset) <==> old(self).tileset.tiles@.len() == 0,
    {
        if self.tileset.tiles.len() == 0 {
            return Err(CollapseError::EmptyTileset);
        }
        match os_seeded_rng() {
            Ok(mut rng) => self.collapse_with(&mut rng),
            Err(_) => Err(CollapseError::EntropyUnavailable),
        }
    }
}
} // verus!
