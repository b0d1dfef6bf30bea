use vstd::arithmetic::div_mod::{
    lemma_fundamental_div_mod, lemma_fundamental_div_mod_converse, lemma_mod_bound,
};
use vstd::prelude::*;

use crate::cell::Cell;

verus! {

/// Mathematical model of a grid: fixed dimensions and a row-major sequence
/// of cells of length `width * height`. The executable types are specified
/// entirely in terms of this model.
#[verifier::ext_equal]
pub struct Board {
    pub width: nat,
    pub height: nat,
    pub cells: Seq<Cell>,
}

impl Board {
    /// A board is well formed when both dimensions are positive and the cell
    /// sequence holds exactly one value per coordinate.
    pub open spec fn wf(self) -> bool {
        self.width > 0 && self.height > 0 && self.cells.len() == self.width * self.height
    }

    pub open spec fn in_bounds(self, x: int, y: int) -> bool {
        0 <= x < self.width && 0 <= y < self.height
    }

    /// The cell stored at `(x, y)`.
    pub open spec fn cell(self, x: int, y: int) -> Cell {
        self.cells[y * self.width + x]
    }
}

/// Two coordinates are near when they are equal or Moore neighbors, that is,
/// they differ by at most one in each direction. The relation is symmetric
/// and reflexive.
pub open spec fn near(ax: int, ay: int, bx: int, by: int) -> bool {
    -1 <= ax - bx <= 1 && -1 <= ay - by <= 1
}

/// 1 when `(x, y)` is in bounds and holds an electron head, else 0.
pub open spec fn head_at(b: Board, x: int, y: int) -> int {
    if b.in_bounds(x, y) && b.cell(x, y) == Cell::ElectronHead {
        1
    } else {
        0
    }
}

/// The number of in-bounds Moore neighbors of `(x, y)` that are electron
/// heads. Coordinates outside the grid contribute nothing: the border is
/// clamped, never wrapped, so corner cells see at most 3 neighbors and edge
/// cells at most 5.
pub open spec fn head_neighbors(b: Board, x: int, y: int) -> int {
    head_at(b, x - 1, y - 1) + head_at(b, x, y - 1) + head_at(b, x + 1, y - 1) + head_at(
        b,
        x - 1,
        y,
    ) + head_at(b, x + 1, y) + head_at(b, x - 1, y + 1) + head_at(b, x, y + 1) + head_at(
        b,
        x + 1,
        y + 1,
    )
}

/// The Wireworld transition rule for the cell at `(x, y)`: empty stays
/// empty, a head decays to a tail, a tail decays to conductor, and a
/// conductor fires exactly when one or two of its neighbors are heads.
pub open spec fn next_cell(b: Board, x: int, y: int) -> Cell {
    match b.cell(x, y) {
        Cell::Empty => Cell::Empty,
        Cell::ElectronHead => Cell::ElectronTail,
        Cell::ElectronTail => Cell::Conductor,
        Cell::Conductor => if head_neighbors(b, x, y) == 1 || head_neighbors(b, x, y) == 2 {
            Cell::ElectronHead
        } else {
            Cell::Conductor
        },
    }
}

/// One full brute-force tick: every cell of the result is recomputed from
/// `b`. This is the reference the incremental engine is proved against.
pub open spec fn step_board(b: Board) -> Board {
    Board {
        cells: Seq::new(
            b.cells.len(),
            |i: int| next_cell(b, i % (b.width as int), i / (b.width as int)),
        ),
        ..b
    }
}

/// `n` brute-force ticks in a row.
pub open spec fn step_board_n(b: Board, n: nat) -> Board
    decreases n,
{
    if n == 0 {
        b
    } else {
        step_board(step_board_n(b, (n - 1) as nat))
    }
}

pub open spec fn all_empty(b: Board) -> bool {
    forall|x: int, y: int| b.in_bounds(x, y) ==> b.cell(x, y) == Cell::Empty
}

/// Some in-bounds cell near `(x, y)` (the cell itself included) holds
/// different values in `b_old` and `b_new`.
pub open spec fn changed_near(b_old: Board, b_new: Board, x: int, y: int) -> bool {
    exists|px: int, py: int|
        b_old.in_bounds(px, py) && #[trigger] near(px, py, x, y) && b_new.cell(px, py)
            != b_old.cell(px, py)
}

/// Row-major index arithmetic: `(x, y)` encodes to `y * w + x`, which lies
/// in `[0, w * h)` and decodes back to `(x, y)`.
pub proof fn lemma_lin(w: int, h: int, x: int, y: int)
    requires
        w > 0,
        h > 0,
        0 <= x < w,
        0 <= y < h,
    ensures
        0 <= y * w + x < w * h,
        (y * w + x) % w == x,
        (y * w + x) / w == y,
{
    assert(0 <= y * w + x < w * h) by (nonlinear_arith)
        requires
            w > 0,
            h > 0,
            0 <= x < w,
            0 <= y < h,
    ;
    lemma_fundamental_div_mod_converse(y * w + x, w, y, x);
}

/// Decoding a row-major index: `i % w` and `i / w` are in-bounds coordinates
/// that re-encode to `i`.
pub proof fn lemma_lin_inv(w: int, h: int, i: int)
    requires
        w > 0,
        h > 0,
        0 <= i < w * h,
    ensures
        0 <= i % w < w,
        0 <= i / w < h,
        (i / w) * w + (i % w) == i,
{
    lemma_mod_bound(i, w);
    lemma_fundamental_div_mod(i, w);
    let q = i / w;
    let r = i % w;
    assert(w * q == q * w) by (nonlinear_arith);
    assert(0 <= q < h) by (nonlinear_arith)
        requires
            w > 0,
            i == w * q + r,
            0 <= r < w,
            0 <= i < w * h,
    ;
}

/// Boards that agree on every in-bounds cell are equal.
pub proof fn lemma_board_ext(a: Board, b: Board)
    requires
        a.wf(),
        b.wf(),
        a.width == b.width,
        a.height == b.height,
        forall|x: int, y: int| a.in_bounds(x, y) ==> a.cell(x, y) == b.cell(x, y),
    ensures
        a == b,
{
    assert forall|i: int| 0 <= i < a.cells.len() implies a.cells[i] == b.cells[i] by {
        lemma_lin_inv(a.width as int, a.height as int, i);
        let x = i % (a.width as int);
        let y = i / (a.width as int);
        assert(a.in_bounds(x, y));
        assert(a.cell(x, y) == b.cell(x, y));
    }
    assert(a.cells =~= b.cells);
    assert(a =~= b);
}

/// The brute-force tick leaves the dimensions alone and recomputes each
/// in-bounds cell with the transition rule.
pub proof fn lemma_step_board_cell(b: Board, x: int, y: int)
    requires
        b.wf(),
        b.in_bounds(x, y),
    ensures
        step_board(b).wf(),
        step_board(b).width == b.width,
        step_board(b).height == b.height,
        step_board(b).cell(x, y) == next_cell(b, x, y),
{
    lemma_lin(b.width as int, b.height as int, x, y);
}

/// A board that holds the transition rule's output at every in-bounds cell
/// is exactly the brute-force tick of `b`.
pub proof fn lemma_board_is_step(nb: Board, b: Board)
    requires
        b.wf(),
        nb.wf(),
        nb.width == b.width,
        nb.height == b.height,
        forall|x: int, y: int| b.in_bounds(x, y) ==> nb.cell(x, y) == next_cell(b, x, y),
    ensures
        nb == step_board(b),
{
    assert forall|x: int, y: int| nb.in_bounds(x, y) implies nb.cell(x, y) == step_board(b).cell(
        x,
        y,
    ) by {
        lemma_step_board_cell(b, x, y);
    }
    lemma_board_ext(nb, step_board(b));
}

/// The transition rule is local: boards of equal dimensions that agree on
/// the whole in-bounds neighborhood of `(x, y)` (the cell itself included)
/// assign `(x, y)` the same next state.
pub proof fn lemma_next_cell_local(a: Board, b: Board, x: int, y: int)
    requires
        a.width == b.width,
        a.height == b.height,
        a.in_bounds(x, y),
        forall|qx: int, qy: int|
            a.in_bounds(qx, qy) && near(qx, qy, x, y) ==> a.cell(qx, qy) == b.cell(qx, qy),
    ensures
        next_cell(a, x, y) == next_cell(b, x, y),
{
    assert(a.cell(x, y) == b.cell(x, y));
    assert(head_at(a, x - 1, y - 1) == head_at(b, x - 1, y - 1));
    assert(head_at(a, x, y - 1) == head_at(b, x, y - 1));
    assert(head_at(a, x + 1, y - 1) == head_at(b, x + 1, y - 1));
    assert(head_at(a, x - 1, y) == head_at(b, x - 1, y));
    assert(head_at(a, x + 1, y) == head_at(b, x + 1, y));
    assert(head_at(a, x - 1, y + 1) == head_at(b, x - 1, y + 1));
    assert(head_at(a, x, y + 1) == head_at(b, x, y + 1));
    assert(head_at(a, x + 1, y + 1) == head_at(b, x + 1, y + 1));
}

/// After a full tick, a cell whose value could change on the following tick
/// has a changed cell somewhere in its neighborhood. This is what lets the
/// engine reseed the dirty set from changed cells alone.
pub proof fn lemma_change_has_changed_neighbor(b: Board, nb: Board, x: int, y: int)
    requires
        b.wf(),
        nb.wf(),
        nb.width == b.width,
        nb.height == b.height,
        forall|px: int, py: int| b.in_bounds(px, py) ==> nb.cell(px, py) == next_cell(b, px, py),
        b.in_bounds(x, y),
        next_cell(nb, x, y) != nb.cell(x, y),
    ensures
        changed_near(b, nb, x, y),
{
    if forall|px: int, py: int|
        b.in_bounds(px, py) && near(px, py, x, y) ==> nb.cell(px, py) == b.cell(px, py) {
        lemma_next_cell_local(nb, b, x, y);
        assert(nb.cell(x, y) == next_cell(b, x, y));
        assert(near(x, y, x, y));
        assert(nb.cell(x, y) == b.cell(x, y));
        assert(false);
    }
}

/// Law: electron heads and tails decay unconditionally. Whatever the
/// neighbors hold, one brute-force tick sends a head to a tail and a tail to
/// a conductor.
pub proof fn lemma_unconditional_decay(b: Board, x: int, y: int)
    requires
        b.wf(),
        b.in_bounds(x, y),
    ensures
        b.cell(x, y) == Cell::ElectronHead ==> step_board(b).cell(x, y) == Cell::ElectronTail,
        b.cell(x, y) == Cell::ElectronTail ==> step_board(b).cell(x, y) == Cell::Conductor,
{
    lemma_step_board_cell(b, x, y);
}

/// Law: at the corner `(0, 0)` at most 3 neighbors exist, so the head count
/// never exceeds 3 there, and a conductor at the corner still fires on the
/// absolute one-or-two threshold applied to the in-bounds count alone.
pub proof fn lemma_corner_neighbor_bound(b: Board)
    requires
        b.wf(),
    ensures
        0 <= head_neighbors(b, 0, 0) <= 3,
        b.cell(0, 0) == Cell::Conductor ==> step_board(b).cell(0, 0) == (
        if 1 <= head_neighbors(b, 0, 0) <= 2 {
            Cell::ElectronHead
        } else {
            Cell::Conductor
        }),
{
    assert(head_at(b, -1, -1) == 0);
    assert(head_at(b, 0, -1) == 0);
    assert(head_at(b, 1, -1) == 0);
    assert(head_at(b, -1, 0) == 0);
    assert(head_at(b, -1, 1) == 0);
    lemma_step_board_cell(b, 0, 0);
}

/// Law: an all-empty board is quiescent. However many ticks run, every cell
/// stays empty and the board is unchanged.
pub proof fn lemma_quiescence(b: Board, n: nat)
    requires
        b.wf(),
        all_empty(b),
    ensures
        step_board_n(b, n) == b,
    decreases n,
{
    if n > 0 {
        lemma_quiescence(b, (n - 1) as nat);
        assert forall|x: int, y: int| b.in_bounds(x, y) implies step_board(b).cell(x, y) == b.cell(
            x,
            y,
        ) by {
            lemma_step_board_cell(b, x, y);
        }
        lemma_step_board_cell(b, 0, 0);
        lemma_board_ext(step_board(b), b);
    }
}

} // verus!
