use vstd::prelude::*;

use crate::board::{
    all_empty, changed_near, lemma_board_ext, lemma_board_is_step,
    lemma_change_has_changed_neighbor, lemma_next_cell_local, near, next_cell, step_board, Board,
};
use crate::cell::Cell;
use crate::dirty::DirtySet;
use crate::error::WireworldError;
use crate::grid::Grid;
use crate::transition::next_state;

verus! {

/// The simulation engine: the authoritative grid, the dirty set feeding the
/// next tick, and a snapshot of the grid as a presentation layer last saw
/// it together with the candidate coordinates that may differ from it.
pub struct Wireworld {
    grid: Grid,
    dirty: DirtySet,
    snap: Grid,
    changed: DirtySet,
}

impl View for Wireworld {
    type V = Board;

    closed spec fn view(&self) -> Board {
        self.grid@
    }
}

impl Wireworld {
    /// Membership in the dirty set: the coordinates that the next tick
    /// re-evaluates.
    pub closed spec fn dirty_has(self, x: int, y: int) -> bool {
        self.dirty.has(x, y)
    }

    /// `(x, y)` holds a different value than it did when `changed_since`
    /// last drained (before any drain: than the all-empty start).
    pub closed spec fn pending(self, x: int, y: int) -> bool {
        self@.in_bounds(x, y) && self@.cell(x, y) != self.snap@.cell(x, y)
    }

    /// The engine invariant. The crucial conjunct is dirty-set
    /// completeness: every coordinate whose value a brute-force tick would
    /// change is already in the dirty set, so re-evaluating only the dirty
    /// coordinates loses nothing.
    pub closed spec fn wf(self) -> bool {
        &&& self.grid.wf()
        &&& self.dirty.wf()
        &&& self.dirty.spec_width() == self@.width
        &&& self.dirty.spec_height() == self@.height
        &&& self.snap.wf()
        &&& self.snap@.width == self@.width
        &&& self.snap@.height == self@.height
        &&& self.changed.wf()
        &&& self.changed.spec_width() == self@.width
        &&& self.changed.spec_height() == self@.height
        &&& forall|x: int, y: int|
            self@.in_bounds(x, y) && next_cell(self@, x, y) != self@.cell(x, y)
                ==> self.dirty_has(x, y)
        &&& forall|x: int, y: int| self.pending(x, y) ==> self.changed.has(x, y)
    }

    /// Builds an engine over a fresh all-empty `width` by `height` grid
    /// with an empty dirty set, or reports `InvalidDimensions` when either
    /// dimension is zero. An engine with no edits yet is quiescent.
    pub fn new(width: usize, height: usize) -> (r: Result<Wireworld, WireworldError>)
        requires
            width * height <= usize::MAX,
        ensures
            r is Ok <==> (width > 0 && height > 0),
            r is Err ==> r == Err::<Wireworld, WireworldError>(WireworldError::InvalidDimensions),
            r matches Ok(e) ==> {
                &&& e.wf()
                &&& e@.width == width
                &&& e@.height == height
                &&& all_empty(e@)
                &&& forall|x: int, y: int| !e.dirty_has(x, y)
                &&& forall|x: int, y: int| !e.pending(x, y)
            },
    {
        let grid = match Grid::new(width, height) {
            Ok(g) => g,
            Err(e) => {
                return Err(e);
            },
        };
        let snap = grid.clone_grid();
        let dirty = DirtySet::new(width, height);
        let changed = DirtySet::new(width, height);
        let e = Wireworld { grid, dirty, snap, changed };
        proof {
            assert forall|x: int, y: int|
                e@.in_bounds(x, y) && next_cell(e@, x, y) != e@.cell(x, y) implies e.dirty_has(
                x,
                y,
            ) by {
                assert(e@.cell(x, y) == Cell::Empty);
            }
        }
        Ok(e)
    }

    pub fn width(&self) -> (w: usize)
        ensures
            w as nat == self@.width,
    {
        self.grid.width()
    }

    pub fn height(&self) -> (h: usize)
        ensures
            h as nat == self@.height,
    {
        self.grid.height()
    }

    /// Read-only query of the cell at `(x, y)`; a coordinate off the grid
    /// is rejected with `OutOfBounds` and nothing is touched.
    pub fn cell_at(&self, x: usize, y: usize) -> (r: Result<Cell, WireworldError>)
        requires
            self.wf(),
        ensures
            r is Ok <==> self@.in_bounds(x as int, y as int),
            r matches Ok(c) ==> c == self@.cell(x as int, y as int),
            r is Err ==> r == Err::<Cell, WireworldError>(WireworldError::OutOfBounds),
    {
        self.grid.get(x, y)
    }

    /// True exactly when the dirty set is empty: without a further edit, no
    /// cell will ever change again.
    pub fn is_quiescent(&self) -> (r: bool)
        requires
            self.wf(),
        ensures
            r <==> forall|x: int, y: int| !self.dirty_has(x, y),
    {
        let r = self.dirty.is_empty();
        proof {
            if !r {
                let (x, y) = choose|x: int, y: int| self.dirty.has(x, y);
                assert(self.dirty_has(x, y));
            }
        }
        r
    }

    /// Writes `cell` at `(x, y)` and marks the coordinate and its in-bounds
    /// Moore neighbors dirty: exactly the cells whose next tick the edit
    /// can influence. A coordinate off the grid is rejected with
    /// `OutOfBounds` and nothing is mutated. The write happens even when
    /// the cell already holds `cell`; the neighborhood is marked dirty all
    /// the same.
    pub fn edit(&mut self, x: usize, y: usize, cell: Cell) -> (r: Result<(), WireworldError>)
        requires
            old(self).wf(),
        ensures
            final(self).wf(),
            final(self)@.width == old(self)@.width,
            final(self)@.height == old(self)@.height,
            r is Ok <==> old(self)@.in_bounds(x as int, y as int),
            r is Err ==> r == Err::<(), WireworldError>(WireworldError::OutOfBounds) && *final(self)
                == *old(self),
            r is Ok ==> forall|qx: int, qy: int|
                old(self)@.in_bounds(qx, qy) ==> final(self)@.cell(qx, qy) == (if qx == x as int
                    && qy == y as int {
                    cell
                } else {
                    old(self)@.cell(qx, qy)
                }),
            r is Ok ==> forall|qx: int, qy: int|
                final(self).dirty_has(qx, qy) <==> old(self).dirty_has(qx, qy) || (old(
                    self,
                )@.in_bounds(qx, qy) && near(qx, qy, x as int, y as int)),
    {
        if !(x < self.grid.width() && y < self.grid.height()) {
            return Err(WireworldError::OutOfBounds);
        }
        let ghost b0 = self@;
        let ghost pre = *self;
        self.grid.write_unchecked(x, y, cell);
        self.dirty.insert_neighborhood(x, y);
        self.changed.insert(x, y);
        proof {
            let xi = x as int;
            let yi = y as int;
            let b1 = self@;
            assert forall|qx: int, qy: int|
                b1.in_bounds(qx, qy) && next_cell(b1, qx, qy) != b1.cell(qx, qy) implies self.dirty
                .has(qx, qy) by {
                if !near(qx, qy, xi, yi) {
                    assert forall|px: int, py: int|
                        b1.in_bounds(px, py) && near(px, py, qx, qy) implies b1.cell(px, py)
                        == b0.cell(px, py) by {
                        assert(!(px == xi && py == yi));
                    }
                    lemma_next_cell_local(b1, b0, qx, qy);
                    assert(b1.cell(qx, qy) == b0.cell(qx, qy));
                    assert(next_cell(b0, qx, qy) != b0.cell(qx, qy));
                    assert(pre.dirty_has(qx, qy));
                    assert(pre.dirty.has(qx, qy));
                }
            }
            assert forall|qx: int, qy: int| self.pending(qx, qy) implies self.changed.has(
                qx,
                qy,
            ) by {
                if !(qx == xi && qy == yi) {
                    assert(b1.cell(qx, qy) == b0.cell(qx, qy));
                    assert(pre.pending(qx, qy));
                }
            }
        }
        Ok(())
    }

    /// One tick of the incremental algorithm. Only the dirty coordinates
    /// are re-evaluated, every evaluation reads the pre-tick grid, and the
    /// result is proved to equal `step_board`, the brute-force
    /// recomputation of every cell. Afterwards the dirty set holds exactly
    /// the coordinates with a changed cell somewhere in their neighborhood,
    /// so an empty dirty set stays empty and the grid stays untouched.
    pub fn step(&mut self)
        requires
            old(self).wf(),
        ensures
            final(self).wf(),
            final(self)@.width == old(self)@.width,
            final(self)@.height == old(self)@.height,
            final(self)@ == step_board(old(self)@),
            forall|qx: int, qy: int|
                final(self).dirty_has(qx, qy) <==> (old(self)@.in_bounds(qx, qy) && changed_near(
                    old(self)@,
                    final(self)@,
                    qx,
                    qy,
                )),
            (forall|qx: int, qy: int| !old(self).dirty_has(qx, qy)) ==> final(self)@ == old(
                self,
            )@,
    {
        let ghost pre = *self;
        let ghost b0 = self@;
        let w = self.grid.width();
        let h = self.grid.height();
        let mut next = self.grid.clone_grid();
        let mut nd = DirtySet::new(w, h);
        let ghost it = self.dirty.iter();
        let n = self.dirty.len();
        let mut k: usize = 0;
        while k < n
            invariant
                self.grid == pre.grid,
                self.dirty == pre.dirty,
                self.snap == pre.snap,
                pre.wf(),
                b0 == pre.grid@,
                it == pre.dirty.iter(),
                n == it.len(),
                k <= n,
                next.wf(),
                next@.width == b0.width,
                next@.height == b0.height,
                forall|qx: int, qy: int|
                    b0.in_bounds(qx, qy) ==> {
                        if exists|j: int| 0 <= j < k && #[trigger] it[j] == ((qx, qy)) {
                            next@.cell(qx, qy) == next_cell(b0, qx, qy)
                        } else {
                            next@.cell(qx, qy) == b0.cell(qx, qy)
                        }
                    },
                nd.wf(),
                nd.spec_width() == b0.width,
                nd.spec_height() == b0.height,
                forall|qx: int, qy: int|
                    nd.has(qx, qy) <==> (b0.in_bounds(qx, qy) && changed_near(b0, next@, qx, qy)),
                self.changed.wf(),
                self.changed.spec_width() == b0.width,
                self.changed.spec_height() == b0.height,
                forall|qx: int, qy: int|
                    pre.changed.has(qx, qy) ==> self.changed.has(qx, qy),
                forall|qx: int, qy: int|
                    b0.in_bounds(qx, qy) && next@.cell(qx, qy) != b0.cell(qx, qy)
                        ==> self.changed.has(qx, qy),
            decreases n - k,
        {
            proof {
                pre.dirty.lemma_iter();
            }
            let (cx, cy) = self.dirty.get(k);
            let ghost cxi = cx as int;
            let ghost cyi = cy as int;
            let cur = self.grid.cell_unchecked(cx, cy);
            let nxt = next_state(&self.grid, cx, cy);
            let ghost prev_next = next@;
            proof {
                // this coordinate has not been processed before, so the
                // buffer still holds its pre-tick value
                assert forall|j: int| 0 <= j < k implies #[trigger] it[j] != ((cxi, cyi)) by {
                    assert(it[j] != it[k as int]);
                }
                assert(prev_next.cell(cxi, cyi) == b0.cell(cxi, cyi));
            }
            if nxt != cur {
                next.write_unchecked(cx, cy, nxt);
                nd.insert_neighborhood(cx, cy);
                self.changed.insert(cx, cy);
                proof {
                    assert forall|qx: int, qy: int| nd.has(qx, qy) implies (b0.in_bounds(qx, qy)
                        && changed_near(b0, next@, qx, qy)) by {
                        if b0.in_bounds(qx, qy) && near(qx, qy, cxi, cyi) {
                            assert(near(cxi, cyi, qx, qy));
                            assert(next@.cell(cxi, cyi) != b0.cell(cxi, cyi));
                        } else {
                            let (px, py) = choose|px: int, py: int|
                                b0.in_bounds(px, py) && #[trigger] near(px, py, qx, qy)
                                    && prev_next.cell(px, py) != b0.cell(px, py);
                            assert(!(px == cxi && py == cyi));
                            assert(next@.cell(px, py) != b0.cell(px, py));
                        }
                    }
                    assert forall|qx: int, qy: int| (b0.in_bounds(qx, qy) && changed_near(
                        b0,
                        next@,
                        qx,
                        qy,
                    )) implies nd.has(qx, qy) by {
                        let (px, py) = choose|px: int, py: int|
                            b0.in_bounds(px, py) && #[trigger] near(px, py, qx, qy) && next@.cell(
                                px,
                                py,
                            ) != b0.cell(px, py);
                        if px == cxi && py == cyi {
                            assert(near(qx, qy, cxi, cyi));
                        } else {
                            assert(prev_next.cell(px, py) != b0.cell(px, py));
                            assert(changed_near(b0, prev_next, qx, qy));
                        }
                    }
                }
            }
            k = k + 1;
        }
        proof {
            pre.dirty.lemma_iter();
            assert forall|qx: int, qy: int| b0.in_bounds(qx, qy) implies next@.cell(qx, qy)
                == next_cell(b0, qx, qy) by {
                if pre.dirty.has(qx, qy) {
                    assert(it.contains((qx, qy)));
                } else {
                    assert forall|j: int| 0 <= j < n implies #[trigger] it[j] != ((qx, qy)) by {
                        let p = it[j];
                        assert(pre.dirty.has(p.0, p.1));
                    }
                    assert(next@.cell(qx, qy) == b0.cell(qx, qy));
                    assert(!pre.dirty_has(qx, qy));
                    assert(next_cell(b0, qx, qy) == b0.cell(qx, qy));
                }
            }
            lemma_board_is_step(next@, b0);
        }
        self.grid = next;
        self.dirty = nd;
        proof {
            let b1 = self@;
            // the dirty set is complete again: a cell that the following
            // tick would change has a changed cell in its neighborhood
            assert forall|qx: int, qy: int|
                b1.in_bounds(qx, qy) && next_cell(b1, qx, qy) != b1.cell(qx, qy) implies self.dirty
                .has(qx, qy) by {
                lemma_change_has_changed_neighbor(b0, b1, qx, qy);
            }
            // the redraw queue still covers every difference from the
            // snapshot
            assert forall|qx: int, qy: int| self.pending(qx, qy) implies self.changed.has(
                qx,
                qy,
            ) by {
                if b1.cell(qx, qy) == b0.cell(qx, qy) {
                    assert(pre.pending(qx, qy));
                }
            }
            // an empty working set leaves the grid untouched
            if forall|qx: int, qy: int| !pre.dirty_has(qx, qy) {
                assert forall|qx: int, qy: int| b0.in_bounds(qx, qy) implies b1.cell(qx, qy)
                    == b0.cell(qx, qy) by {
                    assert(!pre.dirty_has(qx, qy));
                }
                lemma_board_ext(b1, b0);
            }
        }
    }

    /// Drains the redraw queue for a presentation layer: returns exactly
    /// the coordinates whose stored value differs from what they held when
    /// this was last called (for a fresh engine, from the all-empty start),
    /// each at most once and paired with its current value. The grid and
    /// the dirty set are untouched; afterwards nothing is pending until the
    /// next change.
    pub fn changed_since(&mut self) -> (r: Vec<(usize, usize, Cell)>)
        requires
            old(self).wf(),
        ensures
            final(self).wf(),
            final(self)@ == old(self)@,
            forall|qx: int, qy: int|
                final(self).dirty_has(qx, qy) == old(self).dirty_has(qx, qy),
            forall|i: int|
                0 <= i < r@.len() ==> {
                    let e = #[trigger] r@[i];
                    old(self).pending(e.0 as int, e.1 as int) && e.2 == old(self)@.cell(
                        e.0 as int,
                        e.1 as int,
                    )
                },
            forall|qx: int, qy: int|
                old(self).pending(qx, qy) ==> exists|i: int|
                    0 <= i < r@.len() && (#[trigger] r@[i]).0 as int == qx && r@[i].1 as int == qy,
            forall|i: int, j: int|
                0 <= i < j < r@.len() ==> ((r@[i].0, r@[i].1)) != ((r@[j].0, r@[j].1)),
            forall|qx: int, qy: int| !final(self).pending(qx, qy),
    {
        let ghost pre = *self;
        let ghost b0 = self@;
        let w = self.grid.width();
        let h = self.grid.height();
        let mut r: Vec<(usize, usize, Cell)> = Vec::new();
        let ghost it = self.changed.iter();
        let n = self.changed.len();
        let mut k: usize = 0;
        while k < n
            invariant
                self.grid == pre.grid,
                self.dirty == pre.dirty,
                self.changed == pre.changed,
                pre.wf(),
                b0 == pre.grid@,
                it == pre.changed.iter(),
                n == it.len(),
                k <= n,
                self.snap.wf(),
                self.snap@.width == b0.width,
                self.snap@.height == b0.height,
                forall|qx: int, qy: int|
                    b0.in_bounds(qx, qy) ==> {
                        if exists|j: int| 0 <= j < k && #[trigger] it[j] == ((qx, qy)) {
                            self.snap@.cell(qx, qy) == b0.cell(qx, qy)
                        } else {
                            self.snap@.cell(qx, qy) == pre.snap@.cell(qx, qy)
                        }
                    },
                forall|i: int|
                    0 <= i < r@.len() ==> {
                        let e = #[trigger] r@[i];
                        pre.pending(e.0 as int, e.1 as int) && e.2 == b0.cell(
                            e.0 as int,
                            e.1 as int,
                        ) && exists|j: int|
                            0 <= j < k && #[trigger] it[j] == ((e.0 as int, e.1 as int))
                    },
                forall|qx: int, qy: int|
                    pre.pending(qx, qy) && (exists|j: int|
                        0 <= j < k && #[trigger] it[j] == ((qx, qy))) ==> exists|i: int|
                        0 <= i < r@.len() && (#[trigger] r@[i]).0 as int == qx && r@[i].1 as int
                            == qy,
                forall|i: int, j: int|
                    0 <= i < j < r@.len() ==> ((r@[i].0, r@[i].1)) != ((r@[j].0, r@[j].1)),
            decreases n - k,
        {
            let ghost r0 = r@;
            let ghost k0 = k;
            proof {
                pre.changed.lemma_iter();
            }
            let (cx, cy) = self.changed.get(k);
            let ghost cxi = cx as int;
            let ghost cyi = cy as int;
            proof {
                assert forall|j: int| 0 <= j < k implies #[trigger] it[j] != ((cxi, cyi)) by {
                    assert(it[j] != it[k as int]);
                }
                assert(self.snap@.cell(cxi, cyi) == pre.snap@.cell(cxi, cyi));
            }
            let cur = self.grid.cell_unchecked(cx, cy);
            let prev = self.snap.cell_unchecked(cx, cy);
            if cur != prev {
                r.push((cx, cy, cur));
                self.snap.write_unchecked(cx, cy, cur);
                proof {
                    assert(r@[r@.len() - 1] == ((cx, cy, cur)));
                    assert forall|i: int, j: int| 0 <= i < j < r@.len() implies ((
                    r@[i].0,
                    r@[i].1,
                    )) != ((r@[j].0, r@[j].1)) by {
                        if j == r@.len() - 1 {
                            let e = r@[i];
                            let jj = choose|jj: int|
                                0 <= jj < k && #[trigger] it[jj] == ((e.0 as int, e.1 as int));
                            assert(it[jj] != it[k as int]);
                        }
                    }
                }
            }
            k = k + 1;
            proof {
                assert forall|qx: int, qy: int|
                    pre.pending(qx, qy) && (exists|j: int|
                        0 <= j < k && #[trigger] it[j] == ((qx, qy))) implies exists|i: int|
                    0 <= i < r@.len() && (#[trigger] r@[i]).0 as int == qx && r@[i].1 as int
                        == qy by {
                    let j = choose|j: int| 0 <= j < k && #[trigger] it[j] == ((qx, qy));
                    if j == k - 1 {
                        assert(qx == cxi && qy == cyi);
                        assert(cur != prev);
                        assert(r@[r@.len() - 1] == ((cx, cy, cur)));
                        assert(r@[r@.len() - 1].0 as int == qx && r@[r@.len() - 1].1 as int == qy);
                    } else {
                        assert(0 <= j < k0 && it[j] == ((qx, qy)));
                        let i0 = choose|i: int|
                            0 <= i < r0.len() && (#[trigger] r0[i]).0 as int == qx && r0[i].1 as int
                                == qy;
                        assert(r@[i0] == r0[i0]);
                    }
                }
            }
        }
        self.changed = DirtySet::new(w, h);
        proof {
            pre.changed.lemma_iter();
            assert forall|qx: int, qy: int| b0.in_bounds(qx, qy) implies self.snap@.cell(qx, qy)
                == b0.cell(qx, qy) by {
                if pre.changed.has(qx, qy) {
                    assert(it.contains((qx, qy)));
                } else {
                    assert forall|j: int| 0 <= j < n implies #[trigger] it[j] != ((qx, qy)) by {
                        let p = it[j];
                        assert(pre.changed.has(p.0, p.1));
                    }
                    assert(self.snap@.cell(qx, qy) == pre.snap@.cell(qx, qy));
                    assert(!pre.pending(qx, qy));
                }
            }
            assert forall|qx: int, qy: int| pre.pending(qx, qy) implies exists|i: int|
                0 <= i < r@.len() && (#[trigger] r@[i]).0 as int == qx && r@[i].1 as int
                    == qy by {
                assert(pre.changed.has(qx, qy));
                assert(it.contains((qx, qy)));
            }
            assert forall|qx: int, qy: int| !self.pending(qx, qy) by {}
            assert forall|qx: int, qy: int|
                b0.in_bounds(qx, qy) && next_cell(b0, qx, qy) != b0.cell(qx, qy) implies self.dirty
                .has(qx, qy) by {
                assert(pre.dirty_has(qx, qy));
            }
        }
        r
    }
}

} // verus!
