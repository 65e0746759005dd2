//! Properties that relate the library's functions, proved once for all inputs.

use crate::cell::{cell_wf, same_cell, tile_of, Cell};
use crate::geometry::{lemma_neighbor_symmetric, neighbor, Direction};
use crate::grid::{collapse_outcome, CollapseError, Grid};
use crate::image::{PixelImage, Rect};
use crate::settle::{all_nonempty, unconstrained};
use crate::propagate::swept;
use crate::tileset::{edge_start, edge_step, fits, Tile, Tileset};
use vstd::prelude::*;

verus! {

/// In a complete well-formed grid every cell is collapsed and holds exactly
/// one tile index, an index of the tileset.
pub proof fn lemma_complete_cells_hold_one_tile(g: Grid)
    requires
        g.wf(),
        g.complete(),
    ensures
        forall|i: int|
            0 <= i < g.cells@.len() ==> {
                &&& (#[trigger] g.cells@[i]).collapsed
                &&& g.cells@[i].sockets@.len() == 1
                &&& g.cells@[i].sockets@[0] < g.tileset.tiles@.len()
            },
{
    assert forall|i: int| 0 <= i < g.cells@.len() implies {
        &&& (#[trigger] g.cells@[i]).collapsed
        &&& g.cells@[i].sockets@.len() == 1
        &&& g.cells@[i].sockets@[0] < g.tileset.tiles@.len()
    } by {
        assert(cell_wf(g.cells@[i], i, g.tileset.tiles@.len()));
    }
}

/// In a complete consistent grid no cell holds a tile whose adjacency list
/// is empty on a side where the cell has a neighbour.
pub proof fn lemma_dead_end_excluded(g: Grid, i: int, d: Direction)
    requires
        g.consistent(),
        0 <= i < g.cells@.len(),
        neighbor(g.dimension as int, i, d) is Some,
    ensures
        g.tileset.tiles@[tile_of(g.cells@[i]) as int].adjacent(d).len() > 0,
{
    let p = neighbor(g.dimension as int, i, d)->Some_0;
    assert(g.tileset.tiles@[tile_of(g.cells@[i]) as int].adjacent(d).contains(tile_of(g.cells@[p])));
}

/// When every tile has an empty adjacency list on one side, no grid of side
/// two or more can be completed consistently: each attempt ends in a
/// contradiction, so a collapse can only report non-termination.
pub proof fn lemma_dead_end_tileset_never_completes(g: Grid, d: Direction)
    requires
        g.wf(),
        g.dimension >= 2,
        forall|k: int| 0 <= k < g.tileset.tiles@.len() ==> (#[trigger] g.tileset.tiles@[k]).adjacent(d).len() == 0,
    ensures
        !(g.complete() && g.consistent()),
{
    if g.complete() && g.consistent() {
        let dim = g.dimension as int;
        // a cell with a neighbour on side `d`
        let i: int = match d {
            Direction::Up | Direction::Left => dim + 1,
            Direction::Right | Direction::Down => 0,
        };
        assert(dim * dim >= 2 * dim) by (nonlinear_arith)
            requires
                dim >= 2,
        ;
        assert((dim + 1) / dim == 1 && (dim + 1) % dim == 1) by (nonlinear_arith)
            requires
                dim >= 2,
        ;
        assert(0int / dim == 0 && 0int % dim == 0) by (nonlinear_arith)
            requires
                dim >= 2,
        ;
        assert(neighbor(dim, i, d) is Some);
        lemma_complete_cells_hold_one_tile(g);
        lemma_dead_end_excluded(g, i, d);
        assert(g.tileset.tiles@[tile_of(g.cells@[i]) as int].adjacent(d).len() == 0);
    }
}

/// A collapse of a settled grid of side two or more, over a symmetric
/// tileset in which every tile has an empty adjacency list on one side, can
/// only report non-termination, after restarting every attempt.
pub proof fn lemma_dead_end_collapse_fails(old: Grid, new: Grid, r: Result<usize, CollapseError>, d: Direction)
    requires
        collapse_outcome(old, new, r),
        old.settled(),
        old.tileset.symmetric(),
        old.tileset.tiles@.len() > 0,
        old.dimension >= 2,
        forall|k: int| 0 <= k < old.tileset.tiles@.len() ==> (#[trigger] old.tileset.tiles@[k]).adjacent(d).len() == 0,
    ensures
        r == Err::<usize, CollapseError>(CollapseError::NonTermination),
{
    if r is Ok {
        lemma_dead_end_tileset_never_completes(new, d);
    }
}

/// A tileset of one tile that may stand beside itself on all four sides is
/// unconstrained, so a collapse over it never restarts.
pub proof fn lemma_single_tile_unconstrained(g: Grid)
    requires
        g.tileset.tiles@.len() == 1,
        forall|d: Direction| #[trigger] g.tileset.tiles@[0].adjacent(d).contains(0),
    ensures
        unconstrained(g.tileset.tiles@),
{
    assert forall|a: int, d: Direction, t: int|
        0 <= a < g.tileset.tiles@.len() && 0 <= t < g.tileset.tiles@.len() implies #[trigger] g.tileset.tiles@[a].adjacent(
            d,
        ).contains(t as usize) by {
        assert(g.tileset.tiles@[0].adjacent(d).contains(0));
    }
}

/// Over a tileset of one tile that may stand beside itself on all four
/// sides, the only complete grid assigns tile 0 to every cell, and it is
/// consistent.
pub proof fn lemma_single_tile_grid(g: Grid)
    requires
        g.wf(),
        g.complete(),
        g.tileset.tiles@.len() == 1,
        forall|d: Direction| #[trigger] g.tileset.tiles@[0].adjacent(d).contains(0),
    ensures
        forall|i: int| 0 <= i < g.cells@.len() ==> (#[trigger] g.cells@[i]).sockets@ == seq![0usize],
        g.consistent(),
{
    lemma_complete_cells_hold_one_tile(g);
    assert forall|i: int| 0 <= i < g.cells@.len() implies (#[trigger] g.cells@[i]).sockets@ == seq![0usize] by {
        assert(g.cells@[i].sockets@ =~= seq![0usize]);
    }
    let dim = g.dimension as int;
    assert forall|i: int, d: Direction|
        #![trigger g.cells@[i], neighbor(dim, i, d)]
        0 <= i < g.cells@.len() implies (neighbor(dim, i, d) matches Some(p) ==> g.tileset.tiles@[tile_of(
            g.cells@[i],
        ) as int].adjacent(d).contains(tile_of(g.cells@[p]))) by {
        if dim == 0 {
            assert(dim * dim == 0);
        }
        lemma_neighbor_symmetric(dim, i, d);
        if let Some(p) = neighbor(dim, i, d) {
            assert(g.cells@[p].sockets@ == seq![0usize]);
            assert(tile_of(g.cells@[p]) == 0);
            assert(tile_of(g.cells@[i]) == 0);
        }
    }
}

/// The squares of side `ts` at `r1` and `r2` carry the same pixels.
pub open spec fn same_pixels(image: PixelImage, r1: Rect, r2: Rect, ts: int) -> bool {
    forall|u: int, v: int|
        0 <= u < ts && 0 <= v < ts ==> #[trigger] image.pixel(r1.x + u, r1.y + v) == image.pixel(r2.x + u, r2.y + v)
}

/// The square of side `ts` at `r` has a top row equal to its bottom row and
/// a left column equal to its right column.
pub open spec fn opposite_edges_agree(image: PixelImage, r: Rect, ts: int) -> bool {
    forall|i: int|
        0 <= i < ts ==> #[trigger] image.pixel(r.x + i, r.y as int) == image.pixel(r.x + i, r.y + ts - 1)
            && image.pixel(r.x as int, r.y + i) == image.pixel(r.x + ts - 1, r.y + i)
}

/// Two copies of a tile whose opposite edges agree fit beside each other on
/// every side.
proof fn lemma_copies_fit(image: PixelImage, rx: Rect, ry: Rect, ra: Rect, ts: int, d: Direction)
    requires
        same_pixels(image, rx, ra, ts),
        same_pixels(image, ry, ra, ts),
        opposite_edges_agree(image, ra, ts),
    ensures
        fits(image, rx, ry, ts, d),
{
    match d {
        Direction::Up => {
            assert forall|i: int| 0 <= i < ts implies #[trigger] image.pixel(rx.x + 1 * i, rx.y + 0 * i)
                == image.pixel(ry.x + 1 * i, (ry.y + ts - 1) + 0 * i) by {
                assert(image.pixel(rx.x + i, rx.y + 0) == image.pixel(ra.x + i, ra.y + 0));
                assert(image.pixel(ry.x + i, ry.y + (ts - 1)) == image.pixel(ra.x + i, ra.y + (ts - 1)));
                assert(image.pixel(ra.x + i, ra.y as int) == image.pixel(ra.x + i, ra.y + ts - 1));
            }
        },
        Direction::Down => {
            assert forall|i: int| 0 <= i < ts implies #[trigger] image.pixel(rx.x + 1 * i, (rx.y + ts - 1) + 0 * i)
                == image.pixel(ry.x + 1 * i, ry.y + 0 * i) by {
                assert(image.pixel(rx.x + i, rx.y + (ts - 1)) == image.pixel(ra.x + i, ra.y + (ts - 1)));
                assert(image.pixel(ry.x + i, ry.y + 0) == image.pixel(ra.x + i, ra.y + 0));
                assert(image.pixel(ra.x + i, ra.y as int) == image.pixel(ra.x + i, ra.y + ts - 1));
            }
        },
        Direction::Left => {
            assert forall|i: int| 0 <= i < ts implies #[trigger] image.pixel(rx.x + 0 * i, rx.y + 1 * i)
                == image.pixel((ry.x + ts - 1) + 0 * i, ry.y + 1 * i) by {
                assert(image.pixel(rx.x + 0, rx.y + i) == image.pixel(ra.x + 0, ra.y + i));
                assert(image.pixel(ry.x + (ts - 1), ry.y + i) == image.pixel(ra.x + (ts - 1), ra.y + i));
                assert(image.pixel(ra.x + i, ra.y as int) == image.pixel(ra.x + i, ra.y + ts - 1));
                assert(image.pixel(ra.x as int, ra.y + i) == image.pixel(ra.x + ts - 1, ra.y + i));
            }
        },
        Direction::Right => {
            assert forall|i: int| 0 <= i < ts implies #[trigger] image.pixel((rx.x + ts - 1) + 0 * i, rx.y + 1 * i)
                == image.pixel(ry.x + 0 * i, ry.y + 1 * i) by {
                assert(image.pixel(rx.x + (ts - 1), rx.y + i) == image.pixel(ra.x + (ts - 1), ra.y + i));
                assert(image.pixel(ry.x + 0, ry.y + i) == image.pixel(ra.x + 0, ra.y + i));
                assert(image.pixel(ra.x + i, ra.y as int) == image.pixel(ra.x + i, ra.y + ts - 1));
                assert(image.pixel(ra.x as int, ra.y + i) == image.pixel(ra.x + ts - 1, ra.y + i));
            }
        },
    }
}

/// In a tileset derived from pixels, two tiles identical pixel for pixel are
/// adjacent to each other, and each to itself, on all four sides, provided
/// the tile's top row equals its bottom row and its left column its right
/// column.
pub proof fn lemma_identical_tiles_adjacent(t: Tileset, image: PixelImage, a: int, b: int)
    requires
        t.derived_from(image),
        0 <= a < t.tiles@.len(),
        0 <= b < t.tiles@.len(),
        same_pixels(image, t.tiles@[a].rect, t.tiles@[b].rect, t.tile_size as int),
        opposite_edges_agree(image, t.tiles@[a].rect, t.tile_size as int),
    ensures
        forall|d: Direction|
            {
                &&& (#[trigger] t.tiles@[a].adjacent(d)).contains(a as usize)
                &&& t.tiles@[a].adjacent(d).contains(b as usize)
                &&& t.tiles@[b].adjacent(d).contains(a as usize)
                &&& t.tiles@[b].adjacent(d).contains(b as usize)
            },
{
    let ra = t.tiles@[a].rect;
    let rb = t.tiles@[b].rect;
    let ts = t.tile_size as int;
    assert(same_pixels(image, ra, ra, ts));
    assert forall|u: int, v: int| 0 <= u < ts && 0 <= v < ts implies #[trigger] image.pixel(rb.x + u, rb.y + v)
        == image.pixel(ra.x + u, ra.y + v) by {
        assert(image.pixel(ra.x + u, ra.y + v) == image.pixel(rb.x + u, rb.y + v));
    }
    assert forall|d: Direction|
        {
            &&& (#[trigger] t.tiles@[a].adjacent(d)).contains(a as usize)
            &&& t.tiles@[a].adjacent(d).contains(b as usize)
            &&& t.tiles@[b].adjacent(d).contains(a as usize)
            &&& t.tiles@[b].adjacent(d).contains(b as usize)
        } by {
        lemma_copies_fit(image, ra, ra, ra, ts, d);
        lemma_copies_fit(image, ra, rb, ra, ts, d);
        lemma_copies_fit(image, rb, ra, ra, ts, d);
        lemma_copies_fit(image, rb, rb, ra, ts, d);
        t.lemma_adjacent_iff_fits(image, a, a, d);
        t.lemma_adjacent_iff_fits(image, a, b, d);
        t.lemma_adjacent_iff_fits(image, b, a, d);
        t.lemma_adjacent_iff_fits(image, b, b, d);
    }
}

/// In a tileset derived from pixels, two tiles whose touching edges differ
/// in some pixel are not adjacent across that edge, in either direction.
pub proof fn lemma_differing_edge_not_adjacent(t: Tileset, image: PixelImage, a: int, b: int, d: Direction, i: int)
    requires
        t.derived_from(image),
        0 <= a < t.tiles@.len(),
        0 <= b < t.tiles@.len(),
        0 <= i < t.tile_size,
        image.pixel(
            edge_start(t.tiles@[a].rect, t.tile_size as int, d).0 + edge_step(d).0 * i,
            edge_start(t.tiles@[a].rect, t.tile_size as int, d).1 + edge_step(d).1 * i,
        ) != image.pixel(
            edge_start(t.tiles@[b].rect, t.tile_size as int, d.opposite()).0 + edge_step(d).0 * i,
            edge_start(t.tiles@[b].rect, t.tile_size as int, d.opposite()).1 + edge_step(d).1 * i,
        ),
    ensures
        !t.tiles@[a].adjacent(d).contains(b as usize),
        !t.tiles@[b].adjacent(d.opposite()).contains(a as usize),
{
    t.lemma_adjacent_iff_fits(image, a, b, d);
    t.lemma_adjacent_iff_fits(image, b, a, d.opposite());
    crate::tileset::lemma_fits_symmetric(image, t.tiles@[a].rect, t.tiles@[b].rect, t.tile_size as int, d);
}

/// Collapsing a grid over a tileset of one tile that may stand beside itself
/// on all four sides, every cell having a possible tile, succeeds without a
/// restart and assigns tile 0 everywhere, consistently.
pub proof fn lemma_single_tile_collapse(old: Grid, new: Grid, r: Result<usize, CollapseError>)
    requires
        collapse_outcome(old, new, r),
        old.tileset.tiles@.len() == 1,
        forall|d: Direction| #[trigger] old.tileset.tiles@[0].adjacent(d).contains(0),
        all_nonempty(old.cells@),
    ensures
        r == Ok::<usize, CollapseError>(0),
        forall|i: int| 0 <= i < new.cells@.len() ==> (#[trigger] new.cells@[i]).sockets@ == seq![0usize],
        new.consistent(),
{
    lemma_single_tile_unconstrained(old);
    lemma_single_tile_grid(new);
}

/// A successful collapse of a settled grid over a symmetric tileset leaves
/// every cell collapsed to exactly one tile of the set, and every pair of
/// neighbouring cells agreeing.
pub proof fn lemma_collapse_sound(old: Grid, new: Grid, r: Result<usize, CollapseError>)
    requires
        collapse_outcome(old, new, r),
        r is Ok,
        old.settled(),
        old.tileset.symmetric(),
    ensures
        forall|i: int|
            0 <= i < new.cells@.len() ==> {
                &&& (#[trigger] new.cells@[i]).collapsed
                &&& new.cells@[i].sockets@.len() == 1
                &&& new.cells@[i].sockets@[0] < new.tileset.tiles@.len()
            },
        new.consistent(),
{
    lemma_complete_cells_hold_one_tile(new);
}

/// A propagation sweep is determined by the state before it: two sweeps of
/// the same cells agree cell for cell, whatever order they visit them in.
pub proof fn lemma_sweep_deterministic(tiles: Seq<Tile>, old: Seq<Cell>, a: Seq<Cell>, b: Seq<Cell>, dim: int)
    requires
        swept(tiles, old, a, dim),
        swept(tiles, old, b, dim),
    ensures
        a.len() == b.len(),
        forall|i: int| 0 <= i < a.len() ==> same_cell(#[trigger] a[i], b[i]),
{
    assert forall|i: int| 0 <= i < a.len() implies same_cell(#[trigger] a[i], b[i]) by {
        if old[i].collapsed {
            assert(same_cell(a[i], old[i]) && same_cell(b[i], old[i]));
        } else {
            assert(a[i].sockets@ == b[i].sockets@);
        }
    }
}

/// A pixel of one of two squares with the same pixels is the pixel at the
/// same place in the other.
proof fn lemma_same_sample(image: PixelImage, ra: Rect, rb: Rect, ts: int, u: int, v: int)
    requires
        same_pixels(image, ra, rb, ts),
        0 <= u < ts,
        0 <= v < ts,
    ensures
        image.pixel(ra.x + u, ra.y + v) == image.pixel(rb.x + u, rb.y + v),
{
}

/// The edges on any side of two squares with the same pixels carry the same
/// pixels.
proof fn lemma_same_edges(image: PixelImage, ra: Rect, rb: Rect, ts: int, d: Direction)
    requires
        same_pixels(image, ra, rb, ts),
    ensures
        forall|i: int|
            0 <= i < ts ==> #[trigger] image.pixel(
                edge_start(ra, ts, d).0 + edge_step(d).0 * i,
                edge_start(ra, ts, d).1 + edge_step(d).1 * i,
            ) == image.pixel(
                edge_start(rb, ts, d).0 + edge_step(d).0 * i,
                edge_start(rb, ts, d).1 + edge_step(d).1 * i,
            ),
{
    assert forall|i: int| 0 <= i < ts implies #[trigger] image.pixel(
        edge_start(ra, ts, d).0 + edge_step(d).0 * i,
        edge_start(ra, ts, d).1 + edge_step(d).1 * i,
    ) == image.pixel(edge_start(rb, ts, d).0 + edge_step(d).0 * i, edge_start(rb, ts, d).1 + edge_step(d).1 * i) by {
        match d {
            Direction::Up => lemma_same_sample(image, ra, rb, ts, i, 0),
            Direction::Down => lemma_same_sample(image, ra, rb, ts, i, ts - 1),
            Direction::Left => lemma_same_sample(image, ra, rb, ts, 0, i),
            Direction::Right => lemma_same_sample(image, ra, rb, ts, ts - 1, i),
        }
    }
}

/// Whether a tile fits beside another depends only on the two tiles' pixels:
/// either may be replaced by a square with the same pixels.
proof fn lemma_fits_by_pixels(image: PixelImage, ra: Rect, rb: Rect, rc: Rect, ts: int, d: Direction)
    requires
        same_pixels(image, ra, rb, ts),
    ensures
        fits(image, ra, rc, ts, d) == fits(image, rb, rc, ts, d),
        fits(image, rc, ra, ts, d) == fits(image, rc, rb, ts, d),
{
    lemma_same_edges(image, ra, rb, ts, d);
    lemma_same_edges(image, ra, rb, ts, d.opposite());
    assert(edge_step(d.opposite()) == edge_step(d));
    let (dx, dy) = edge_step(d);
    let (ax, ay) = edge_start(ra, ts, d);
    let (bx, by) = edge_start(rb, ts, d);
    let (cx, cy) = edge_start(rc, ts, d.opposite());
    if fits(image, ra, rc, ts, d) {
        assert forall|i: int| 0 <= i < ts implies #[trigger] image.pixel(bx + dx * i, by + dy * i) == image.pixel(
            cx + dx * i,
            cy + dy * i,
        ) by {
            assert(image.pixel(ax + dx * i, ay + dy * i) == image.pixel(cx + dx * i, cy + dy * i));
        }
    }
    if fits(image, rb, rc, ts, d) {
        assert forall|i: int| 0 <= i < ts implies #[trigger] image.pixel(ax + dx * i, ay + dy * i) == image.pixel(
            cx + dx * i,
            cy + dy * i,
        ) by {
            assert(image.pixel(bx + dx * i, by + dy * i) == image.pixel(cx + dx * i, cy + dy * i));
        }
    }
    let (ex, ey) = edge_start(rc, ts, d);
    let (fx, fy) = edge_start(ra, ts, d.opposite());
    let (gx, gy) = edge_start(rb, ts, d.opposite());
    if fits(image, rc, ra, ts, d) {
        assert forall|i: int| 0 <= i < ts implies #[trigger] image.pixel(ex + dx * i, ey + dy * i) == image.pixel(
            gx + dx * i,
            gy + dy * i,
        ) by {
            assert(image.pixel(ex + dx * i, ey + dy * i) == image.pixel(fx + dx * i, fy + dy * i));
        }
    }
    if fits(image, rc, rb, ts, d) {
        assert forall|i: int| 0 <= i < ts implies #[trigger] image.pixel(ex + dx * i, ey + dy * i) == image.pixel(
            fx + dx * i,
            fy + dy * i,
        ) by {
            assert(image.pixel(ex + dx * i, ey + dy * i) == image.pixel(gx + dx * i, gy + dy * i));
        }
    }
}

/// In a tileset derived from pixels, two tiles identical pixel for pixel
/// are interchangeable: on every side, each lists the other exactly when it
/// lists itself, and every tile lists either of them exactly when it lists
/// the other.
pub proof fn lemma_identical_tiles_interchangeable(t: Tileset, image: PixelImage, a: int, b: int)
    requires
        t.derived_from(image),
        0 <= a < t.tiles@.len(),
        0 <= b < t.tiles@.len(),
        same_pixels(image, t.tiles@[a].rect, t.tiles@[b].rect, t.tile_size as int),
    ensures
        forall|d: Direction|
            {
                &&& (#[trigger] t.tiles@[a].adjacent(d)).contains(b as usize) == t.tiles@[a].adjacent(d).contains(
                    a as usize,
                )
                &&& t.tiles@[a].adjacent(d).contains(a as usize) == t.tiles@[b].adjacent(d).contains(a as usize)
                &&& t.tiles@[b].adjacent(d).contains(a as usize) == t.tiles@[b].adjacent(d).contains(b as usize)
            },
        forall|c: int, d: Direction|
            0 <= c < t.tiles@.len() ==> t.tiles@[a].adjacent(d).contains(c as usize) == #[trigger] t.tiles@[b].adjacent(
                d,
            ).contains(c as usize),
        forall|c: int, d: Direction|
            0 <= c < t.tiles@.len() ==> (#[trigger] t.tiles@[c].adjacent(d)).contains(a as usize) == t.tiles@[c].adjacent(
                d,
            ).contains(b as usize),
{
    let ra = t.tiles@[a].rect;
    let rb = t.tiles@[b].rect;
    let ts = t.tile_size as int;
    assert forall|c: int, d: Direction| 0 <= c < t.tiles@.len() implies t.tiles@[a].adjacent(d).contains(c as usize)
        == #[trigger] t.tiles@[b].adjacent(d).contains(c as usize) by {
        lemma_fits_by_pixels(image, ra, rb, t.tiles@[c].rect, ts, d);
        t.lemma_adjacent_iff_fits(image, a, c, d);
        t.lemma_adjacent_iff_fits(image, b, c, d);
    }
    assert forall|c: int, d: Direction| 0 <= c < t.tiles@.len() implies (#[trigger] t.tiles@[c].adjacent(d)).contains(
        a as usize,
    ) == t.tiles@[c].adjacent(d).contains(b as usize) by {
        lemma_fits_by_pixels(image, ra, rb, t.tiles@[c].rect, ts, d);
        t.lemma_adjacent_iff_fits(image, c, a, d);
        t.lemma_adjacent_iff_fits(image, c, b, d);
    }
    assert forall|d: Direction|
        {
            &&& (#[trigger] t.tiles@[a].adjacent(d)).contains(b as usize) == t.tiles@[a].adjacent(d).contains(a as usize)
            &&& t.tiles@[a].adjacent(d).contains(a as usize) == t.tiles@[b].adjacent(d).contains(a as usize)
            &&& t.tiles@[b].adjacent(d).contains(a as usize) == t.tiles@[b].adjacent(d).contains(b as usize)
        } by {
        lemma_fits_by_pixels(image, ra, rb, ra, ts, d);
        lemma_fits_by_pixels(image, ra, rb, rb, ts, d);
        t.lemma_adjacent_iff_fits(image, a, a, d);
        t.lemma_adjacent_iff_fits(image, a, b, d);
        t.lemma_adjacent_iff_fits(image, b, a, d);
        t.lemma_adjacent_iff_fits(image, b, b, d);
    }
}

} // verus!
