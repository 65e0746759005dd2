//! Sides and neighbourhood in a row-major square grid.

use vstd::arithmetic::div_mod::lemma_fundamental_div_mod;
use vstd::arithmetic::div_mod::lemma_fundamental_div_mod_converse;
use vstd::prelude::*;

verus! {

/// One of the four sides of a tile or a cell.
#[derive(Clone, Copy, Debug, PartialEq, Eq, Structural)]
pub enum Direction {
    Up,
    Right,
    Down,
    Left,
}

impl Direction {
    /// The side that faces this one across an edge.
    pub open spec fn opposite(self) -> Direction {
        match self {
            Direction::Up => Direction::Down,
            Direction::Right => Direction::Left,
            Direction::Down => Direction::Up,
            Direction::Left => Direction::Right,
        }
    }
}

/// The column of position `i` in a row-major square grid of side `dim`.
pub open spec fn column(dim: int, i: int) -> int {
    i % dim
}

/// The row of position `i` in a row-major square grid of side `dim`.
pub open spec fn row(dim: int, i: int) -> int {
    i / dim
}

/// The position next to `i` on side `d`, if the grid has one there (no
/// wrap-around).
pub open spec fn neighbor(dim: int, i: int, d: Direction) -> Option<int> {
    match d {
        Direction::Up => if row(dim, i) > 0 {
            Some(i - dim)
        } else {
            None
        },
        Direction::Right => if column(dim, i) + 1 < dim {
            Some(i + 1)
        } else {
            None
        },
        Direction::Down => if row(dim, i) + 1 < dim {
            Some(i + dim)
        } else {
            None
        },
        Direction::Left => if column(dim, i) > 0 {
            Some(i - 1)
        } else {
            None
        },
    }
}

/// Position `x + y * dim` lies in column `x` and row `y`.
pub proof fn lemma_coordinates(dim: int, x: int, y: int)
    requires
        0 <= x < dim,
        0 <= y,
    ensures
        column(dim, x + y * dim) == x,
        row(dim, x + y * dim) == y,
        0 <= x + y * dim,
        y < dim ==> x + y * dim < dim * dim,
{
    lemma_fundamental_div_mod_converse(x + y * dim, dim, y, x);
    assert(0 <= y * dim) by (nonlinear_arith)
        requires
            0 <= y,
            0 < dim,
    ;
    if y < dim {
        assert(x + y * dim < dim * dim) by (nonlinear_arith)
            requires
                0 <= x < dim,
                0 <= y < dim,
        ;
    }
}

/// Every position of the grid has its column and row inside the grid.
pub proof fn lemma_position(dim: int, i: int)
    requires
        0 < dim,
        0 <= i < dim * dim,
    ensures
        0 <= column(dim, i) < dim,
        0 <= row(dim, i) < dim,
        i == column(dim, i) + row(dim, i) * dim,
{
    lemma_fundamental_div_mod(i, dim);
    assert(0 <= column(dim, i) < dim);
    assert(i == column(dim, i) + row(dim, i) * dim) by (nonlinear_arith)
        requires
            i == dim * (i / dim) + i % dim,
    ;
    assert(0 <= row(dim, i) < dim) by (nonlinear_arith)
        requires
            0 <= column(dim, i) < dim,
            i == column(dim, i) + row(dim, i) * dim,
            0 <= i < dim * dim,
    ;
}

/// Neighbourhood is symmetric: `p` is next to `i` on side `d` exactly when `i`
/// is next to `p` on the opposite side, and both lie in the grid.
pub proof fn lemma_neighbor_symmetric(dim: int, i: int, d: Direction)
    requires
        0 < dim,
        0 <= i < dim * dim,
    ensures
        neighbor(dim, i, d) matches Some(p) ==> 0 <= p < dim * dim && neighbor(
            dim,
            p,
            d.opposite(),
        ) == Some(i),
{
    lemma_position(dim, i);
    let x = column(dim, i);
    let y = row(dim, i);
    match d {
        Direction::Up => {
            if y > 0 {
                lemma_coordinates(dim, x, y - 1);
                assert(x + (y - 1) * dim == i - dim) by (nonlinear_arith)
                    requires
                        i == x + y * dim,
                ;
            }
        },
        Direction::Down => {
            if y + 1 < dim {
                lemma_coordinates(dim, x, y + 1);
                assert(x + (y + 1) * dim == i + dim) by (nonlinear_arith)
                    requires
                        i == x + y * dim,
                ;
            }
        },
        Direction::Right => {
            if x + 1 < dim {
                lemma_coordinates(dim, x + 1, y);
            }
        },
        Direction::Left => {
            if x > 0 {
                lemma_coordinates(dim, x - 1, y);
            }
        },
    }
}

} // verus!
