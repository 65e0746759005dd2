//! Selecting the open cells of least entropy.

use crate::cell::Cell;
use vstd::prelude::*;

verus! {

/// Position `i` is open and no open cell has fewer possible tiles.
pub open spec fn least_entropy(cells: Seq<Cell>, i: int) -> bool {
    &&& !cells[i].collapsed
    &&& forall|k: int|
        0 <= k < cells.len() && !(#[trigger] cells[k]).collapsed ==> cells[i].sockets@.len()
            <= cells[k].sockets@.len()
}

/// Every cell of `cells` is collapsed.
pub open spec fn all_collapsed(cells: Seq<Cell>) -> bool {
    forall|i: int| 0 <= i < cells.len() ==> (#[trigger] cells[i]).collapsed
}

/// `r` lists positions of `cells` in strictly increasing order.
pub open spec fn increasing_positions(r: Seq<usize>, len: int) -> bool {
    &&& forall|q: int| 0 <= q < r.len() ==> #[trigger] r[q] < len
    &&& forall|p: int, q: int| 0 <= p < q < r.len() ==> #[trigger] r[p] < #[trigger] r[q]
}

/// The positions of all open cells with the fewest possible tiles, ties
/// kept, in increasing order; empty exactly when every cell is collapsed.
pub fn pick_cell_with_least_entropy(cells: &Vec<Cell>) -> (r: Vec<usize>)
    ensures
        increasing_positions(r@, cells@.len() as int),
        forall|i: int| 0 <= i < cells@.len() ==> (r@.contains(i as usize) <==> least_entropy(cells@, i)),
        r@.len() == 0 <==> all_collapsed(cells@),
{
    let mut best: Option<usize> = None;
    let mut best_at: usize = 0;
    let mut k: usize = 0;
    while k < cells.len()
        invariant
            k <= cells@.len(),
            match best {
                None => forall|m: int| 0 <= m < k ==> (#[trigger] cells@[m]).collapsed,
                Some(b) => {
                    &&& best_at < k
                    &&& !cells@[best_at as int].collapsed
                    &&& cells@[best_at as int].sockets@.len() == b
                    &&& forall|m: int|
                        0 <= m < k && !(#[trigger] cells@[m]).collapsed ==> b <= cells@[m].sockets@.len()
                },
            },
        decreases cells@.len() - k,
    {
        let cell = &cells[k];
        if !cell.collapsed {
            match best {
                None => {
                    best = Some(cell.sockets.len());
                    best_at = k;
                },
                Some(b) => {
                    if cell.sockets.len() < b {
                        best = Some(cell.sockets.len());
                        best_at = k;
                    }
                },
            }
        }
        k = k + 1;
    }
    let mut picked: Vec<usize> = Vec::new();
    match best {
        None => {},
        Some(b) => {
            let mut i: usize = 0;
            while i < cells.len()
                invariant
                    i <= cells@.len(),
                    best_at < cells@.len(),
                    !cells@[best_at as int].collapsed,
                    cells@[best_at as int].sockets@.len() == b,
                    forall|m: int|
                        0 <= m < cells@.len() && !(#[trigger] cells@[m]).collapsed ==> b <= cells@[m].sockets@.len(),
                    forall|q: int| 0 <= q < picked@.len() ==> #[trigger] picked@[q] < i,
                    forall|p: int, q: int| 0 <= p < q < picked@.len() ==> #[trigger] picked@[p] < #[trigger] picked@[q],
                    forall|m: int| 0 <= m < i ==> (picked@.contains(m as usize) <==> least_entropy(cells@, m)),
                    best_at < i ==> picked@.len() > 0,
                decreases cells@.len() - i,
            {
                let cell = &cells[i];
                let ghost old_picked = picked@;
                if !cell.collapsed && cell.sockets.len() == b {
                    picked.push(i);
                }
                proof {
                    assert(least_entropy(cells@, i as int) <==> (!cells@[i as int].collapsed
                        && cells@[i as int].sockets@.len() == b));
                    assert forall|m: int| 0 <= m < i + 1 implies (picked@.contains(m as usize) <==> least_entropy(cells@, m)) by {
                        if picked@.contains(m as usize) {
                            let q = choose|q: int| 0 <= q < picked@.len() && picked@[q] == m as usize;
                            if q < old_picked.len() {
                                assert(old_picked[q] == m as usize);
                                assert(old_picked.contains(m as usize));
                            }
                        }
                        if m < i && old_picked.contains(m as usize) {
                            let q = choose|q: int| 0 <= q < old_picked.len() && old_picked[q] == m as usize;
                            assert(picked@[q] == m as usize);
                        }
                        if m == i && least_entropy(cells@, m) {
                            assert(picked@[picked@.len() - 1] == m as usize);
                        }
                        if m == i && picked@.contains(m as usize) {
                            let q = choose|q: int| 0 <= q < picked@.len() && picked@[q] == m as usize;
                            if q < old_picked.len() {
                                assert(old_picked[q] < i);
                            }
                        }
                    }
                }
                i = i + 1;
            }
        },
    }
    picked
}

} // verus!
