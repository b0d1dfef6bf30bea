use vstd::prelude::*;

use crate::board::{head_at, head_neighbors, next_cell};
use crate::cell::Cell;
use crate::grid::Grid;

verus! {

/// Counts the in-bounds Moore neighbors of `(x, y)` that are electron
/// heads, probing each of the eight candidate offsets and skipping the ones
/// that fall outside the grid.
pub fn count_head_neighbors(g: &Grid, x: usize, y: usize) -> (n: u8)
    requires
        g.wf(),
        g@.in_bounds(x as int, y as int),
    ensures
        n as int == head_neighbors(g@, x as int, y as int),
{
    let w = g.width();
    let h = g.height();
    let ghost xi = x as int;
    let ghost yi = y as int;
    let mut n: u8 = 0;
    if x > 0 && y > 0 {
        if g.cell_unchecked(x - 1, y - 1) == Cell::ElectronHead {
            n = n + 1;
        }
    }
    assert(n as int == head_at(g@, xi - 1, yi - 1));
    if y > 0 {
        if g.cell_unchecked(x, y - 1) == Cell::ElectronHead {
            n = n + 1;
        }
    }
    assert(n as int == head_at(g@, xi - 1, yi - 1) + head_at(g@, xi, yi - 1));
    if x + 1 < w && y > 0 {
        if g.cell_unchecked(x + 1, y - 1) == Cell::ElectronHead {
            n = n + 1;
        }
    }
    assert(n as int == head_at(g@, xi - 1, yi - 1) + head_at(g@, xi, yi - 1) + head_at(
        g@,
        xi + 1,
        yi - 1,
    ));
    if x > 0 {
        if g.cell_unchecked(x - 1, y) == Cell::ElectronHead {
            n = n + 1;
        }
    }
    assert(n as int == head_at(g@, xi - 1, yi - 1) + head_at(g@, xi, yi - 1) + head_at(
        g@,
        xi + 1,
        yi - 1,
    ) + head_at(g@, xi - 1, yi));
    if x + 1 < w {
        if g.cell_unchecked(x + 1, y) == Cell::ElectronHead {
            n = n + 1;
        }
    }
    assert(n as int == head_at(g@, xi - 1, yi - 1) + head_at(g@, xi, yi - 1) + head_at(
        g@,
        xi + 1,
        yi - 1,
    ) + head_at(g@, xi - 1, yi) + head_at(g@, xi + 1, yi));
    if x > 0 && y + 1 < h {
        if g.cell_unchecked(x - 1, y + 1) == Cell::ElectronHead {
            n = n + 1;
        }
    }
    assert(n as int == head_at(g@, xi - 1, yi - 1) + head_at(g@, xi, yi - 1) + head_at(
        g@,
        xi + 1,
        yi - 1,
    ) + head_at(g@, xi - 1, yi) + head_at(g@, xi + 1, yi) + head_at(g@, xi - 1, yi + 1));
    if y + 1 < h {
        if g.cell_unchecked(x, y + 1) == Cell::ElectronHead {
            n = n + 1;
        }
    }
    assert(n as int == head_at(g@, xi - 1, yi - 1) + head_at(g@, xi, yi - 1) + head_at(
        g@,
        xi + 1,
        yi - 1,
    ) + head_at(g@, xi - 1, yi) + head_at(g@, xi + 1, yi) + head_at(g@, xi - 1, yi + 1) + head_at(
        g@,
        xi,
        yi + 1,
    ));
    if x + 1 < w && y + 1 < h {
        if g.cell_unchecked(x + 1, y + 1) == Cell::ElectronHead {
            n = n + 1;
        }
    }
    assert(n as int == head_neighbors(g@, xi, yi));
    n
}

/// Computes the transition rule for the in-bounds cell at `(x, y)` against
/// the current contents of `g`: the executable counterpart of `next_cell`.
pub fn next_state(g: &Grid, x: usize, y: usize) -> (c: Cell)
    requires
        g.wf(),
        g@.in_bounds(x as int, y as int),
    ensures
        c == next_cell(g@, x as int, y as int),
{
    match g.cell_unchecked(x, y) {
        Cell::Empty => Cell::Empty,
        Cell::ElectronHead => Cell::ElectronTail,
        Cell::ElectronTail => Cell::Conductor,
        Cell::Conductor => {
            let n = count_head_neighbors(g, x, y);
            if n == 1 || n == 2 {
                Cell::ElectronHead
            } else {
                Cell::Conductor
            }
        },
    }
}

} // verus!
