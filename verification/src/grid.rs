use vstd::pervasive::VecAdditionalExecFns;
use vstd::prelude::*;

use crate::board::{all_empty, lemma_lin, Board};
use crate::cell::Cell;
use crate::error::WireworldError;

verus! {

/// Dense, bounds-checked storage for one grid of cells. The dimensions are
/// fixed at construction and the backing vector holds exactly one cell per
/// coordinate, row-major. `Grid` is pure storage: dirty tracking is the
/// engine's concern.
pub struct Grid {
    width: usize,
    height: usize,
    cells: Vec<Cell>,
}

impl View for Grid {
    type V = Board;

    closed spec fn view(&self) -> Board {
        Board { width: self.width as nat, height: self.height as nat, cells: self.cells@ }
    }
}

impl Grid {
    /// Well-formedness: the model is well formed and the whole grid fits in
    /// one allocation.
    pub open spec fn wf(self) -> bool {
        self@.wf() && self@.width * self@.height <= usize::MAX
    }

    pub fn width(&self) -> (w: usize)
        ensures
            w as nat == self@.width,
    {
        self.width
    }

    pub fn height(&self) -> (h: usize)
        ensures
            h as nat == self@.height,
    {
        self.height
    }

    /// Builds a `width` by `height` grid filled with `Empty`, or reports
    /// `InvalidDimensions` when either dimension is zero.
    pub fn new(width: usize, height: usize) -> (r: Result<Grid, WireworldError>)
        requires
            width * height <= usize::MAX,
        ensures
            r is Ok <==> (width > 0 && height > 0),
            r is Err ==> r == Err::<Grid, WireworldError>(WireworldError::InvalidDimensions),
            r matches Ok(g) ==> g.wf() && g@.width == width && g@.height == height && all_empty(
                g@,
            ),
    {
        if width == 0 || height == 0 {
            return Err(WireworldError::InvalidDimensions);
        }
        let total: usize = width * height;
        let mut cells: Vec<Cell> = Vec::new();
        while cells.len() < total
            invariant
                cells@.len() <= total,
                forall|i: int| 0 <= i < cells@.len() ==> cells@[i] == Cell::Empty,
            decreases total - cells@.len(),
        {
            cells.push(Cell::Empty);
        }
        let g = Grid { width, height, cells };
        proof {
            assert forall|x: int, y: int| g@.in_bounds(x, y) implies g@.cell(x, y)
                == Cell::Empty by {
                lemma_lin(width as int, height as int, x, y);
            }
        }
        Ok(g)
    }

    /// Reads an in-bounds cell directly.
    pub fn cell_unchecked(&self, x: usize, y: usize) -> (c: Cell)
        requires
            self.wf(),
            self@.in_bounds(x as int, y as int),
        ensures
            c == self@.cell(x as int, y as int),
    {
        proof {
            lemma_lin(self@.width as int, self@.height as int, x as int, y as int);
        }
        self.cells[y * self.width + x]
    }

    /// Reads the cell at `(x, y)`, or reports `OutOfBounds`. No side
    /// effects.
    pub fn get(&self, x: usize, y: usize) -> (r: Result<Cell, WireworldError>)
        requires
            self.wf(),
        ensures
            r is Ok <==> self@.in_bounds(x as int, y as int),
            r matches Ok(c) ==> c == self@.cell(x as int, y as int),
            r is Err ==> r == Err::<Cell, WireworldError>(WireworldError::OutOfBounds),
    {
        if x < self.width && y < self.height {
            Ok(self.cell_unchecked(x, y))
        } else {
            Err(WireworldError::OutOfBounds)
        }
    }

    /// Overwrites an in-bounds cell directly; every other cell keeps its
    /// value.
    pub fn write_unchecked(&mut self, x: usize, y: usize, c: Cell)
        requires
            old(self).wf(),
            old(self)@.in_bounds(x as int, y as int),
        ensures
            final(self).wf(),
            final(self)@.width == old(self)@.width,
            final(self)@.height == old(self)@.height,
            forall|qx: int, qy: int|
                old(self)@.in_bounds(qx, qy) ==> final(self)@.cell(qx, qy) == (if qx == x as int
                    && qy == y as int {
                    c
                } else {
                    old(self)@.cell(qx, qy)
                }),
    {
        let ghost w = self@.width as int;
        let ghost h = self@.height as int;
        proof {
            lemma_lin(w, h, x as int, y as int);
        }
        let i: usize = y * self.width + x;
        self.cells.set(i, c);
        proof {
            assert forall|qx: int, qy: int| old(self)@.in_bounds(qx, qy) implies self@.cell(qx, qy)
                == (if qx == x as int && qy == y as int {
                c
            } else {
                old(self)@.cell(qx, qy)
            }) by {
                lemma_lin(w, h, qx, qy);
            }
        }
    }

    /// Overwrites the cell at `(x, y)`, or reports `OutOfBounds` and leaves
    /// the grid untouched.
    pub fn set_cell(&mut self, x: usize, y: usize, c: Cell) -> (r: Result<(), WireworldError>)
        requires
            old(self).wf(),
        ensures
            final(self).wf(),
            final(self)@.width == old(self)@.width,
            final(self)@.height == old(self)@.height,
            r is Ok <==> old(self)@.in_bounds(x as int, y as int),
            r is Err ==> r == Err::<(), WireworldError>(WireworldError::OutOfBounds) && *final(self)
                == *old(self),
            r is Ok ==> forall|qx: int, qy: int|
                old(self)@.in_bounds(qx, qy) ==> final(self)@.cell(qx, qy) == (if qx == x as int
                    && qy == y as int {
                    c
                } else {
                    old(self)@.cell(qx, qy)
                }),
    {
        if x < self.width && y < self.height {
            self.write_unchecked(x, y, c);
            Ok(())
        } else {
            Err(WireworldError::OutOfBounds)
        }
    }

    /// Copies the grid cell for cell.
    pub fn clone_grid(&self) -> (g: Grid)
        requires
            self.wf(),
        ensures
            g.wf(),
            g@ == self@,
    {
        let total: usize = self.cells.len();
        let mut cells: Vec<Cell> = Vec::new();
        while cells.len() < total
            invariant
                total == self.cells@.len(),
                cells@.len() <= total,
                forall|i: int| 0 <= i < cells@.len() ==> cells@[i] == self.cells@[i],
            decreases total - cells@.len(),
        {
            let k = cells.len();
            cells.push(self.cells[k]);
        }
        let g = Grid { width: self.width, height: self.height, cells };
        proof {
            assert(g@.cells =~= self@.cells);
            assert(g@ =~= self@);
        }
        g
    }
}

} // verus!
