//! Why a run of slots is a line of cells.
//!
//! The spare slot on top of each column is never occupied. A run that left a
//! column through its top or its bottom would have to pass through such a
//! slot, so every run of one side's slots stays on the board and follows one
//! of the four directions.

use vstd::prelude::*;
use crate::bitboard::Piece;
use crate::grid::{Direction, Grid, lemma_cell_of_slot, lemma_slot_of_cell};
use crate::runs::{nth_slot, run_at};

verus! {

/// The directions in the order in which the board tries them.
pub open spec fn direction_at(i: int) -> Direction {
    if i == 0 {
        Direction::Vertical
    } else if i == 1 {
        Direction::Horizontal
    } else if i == 2 {
        Direction::Falling
    } else {
        Direction::Rising
    }
}

/// Somewhere `len` slots of `side` follow each other along `d`.
pub open spec fn has_run(g: Grid, side: Piece, d: Direction, len: nat) -> bool {
    exists|j: int| #[trigger] run_at(g.holds(side), j, d.step(g.stride()), len)
}

/// Walking `k` steps along `d` from the slot of `(r, c)` reaches the slot of
/// the cell `k` steps along `d` from `(r, c)`.
pub proof fn lemma_nth_slot_along(stride: int, r: int, c: int, d: Direction, k: int)
    ensures
        nth_slot(c * stride + r, d.step(stride), k) == (c + k * d.dc()) * stride + (r + k * d.dr()),
{
    let step = d.step(stride);
    let dc = d.dc();
    let dr = d.dr();
    assert(step == dc * stride + dr);
    assert(c * stride + r + k * step == (c + k * dc) * stride + (r + k * dr)) by (nonlinear_arith)
        requires
            step == dc * stride + dr,
    ;
}

/// A line of cells of one side is a run of slots.
pub proof fn lemma_line_is_run(g: Grid, side: Piece, r: int, c: int, d: Direction, len: nat)
    requires
        g.wf(),
        side != Piece::Empty,
        g.line(side, r, c, d, len),
    ensures
        run_at(g.holds(side), c * g.stride() + r, d.step(g.stride()), len),
{
    let stride = g.stride();
    assert forall|k: int| 0 <= k < len implies g.holds(side)(
        #[trigger] nth_slot(c * stride + r, d.step(stride), k),
    ) by {
        assert(g.cell_along(r, c, d, k) == side);
        lemma_nth_slot_along(stride, r, c, d, k);
        let rk = r + k * d.dr();
        let ck = c + k * d.dc();
        lemma_slot_of_cell(stride, rk, ck);
        assert(0 <= ck * stride) by (nonlinear_arith)
            requires
                0 <= ck,
                0 < stride,
        ;
    }
}

/// In a run of slots of one side, the `k`-th slot is the `k`-th cell of the
/// line that starts at the cell of the first slot.
proof fn lemma_run_cell(g: Grid, side: Piece, j: int, d: Direction, len: nat, k: int)
    requires
        g.wf(),
        side != Piece::Empty,
        run_at(g.holds(side), j, d.step(g.stride()), len),
        0 <= k < len,
    ensures
        0 <= j,
        0 <= j % g.stride() + k * d.dr() < g.rows,
        g.cell_along(j % g.stride(), j / g.stride(), d, k) == side,
    decreases k,
{
    let stride = g.stride();
    let r = j % stride;
    let c = j / stride;
    assert(g.holds(side)(nth_slot(j, d.step(stride), 0)));
    assert(nth_slot(j, d.step(stride), 0) == j);
    lemma_cell_of_slot(stride, j);
    if k > 0 {
        lemma_run_cell(g, side, j, d, len, k - 1);
        let s = nth_slot(j, d.step(stride), k);
        assert(g.holds(side)(s));
        lemma_nth_slot_along(stride, r, c, d, k);
        let rk = r + k * d.dr();
        let ck = c + k * d.dc();
        let dr = d.dr();
        assert(k * dr == (k - 1) * dr + dr) by (nonlinear_arith);
        assert(s == ck * stride + rk);
        if rk < 0 {
            assert(s == (ck - 1) * stride + (stride - 1)) by (nonlinear_arith)
                requires
                    s == ck * stride + rk,
                    rk == -1,
            ;
            lemma_slot_of_cell(stride, stride - 1, ck - 1);
        } else {
            lemma_slot_of_cell(stride, rk, ck);
        }
    }
}

/// A run of slots of one side is a line of cells.
pub proof fn lemma_run_is_line(g: Grid, side: Piece, j: int, d: Direction, len: nat)
    requires
        g.wf(),
        side != Piece::Empty,
        run_at(g.holds(side), j, d.step(g.stride()), len),
    ensures
        g.line(side, j % g.stride(), j / g.stride(), d, len),
{
    assert forall|k: int| 0 <= k < len implies #[trigger] g.cell_along(
        j % g.stride(),
        j / g.stride(),
        d,
        k,
    ) == side by {
        lemma_run_cell(g, side, j, d, len, k);
    }
}

/// A side has won exactly when a run of `connect` of its slots follows one
/// of the four directions.
pub proof fn lemma_wins_iff_run(g: Grid, side: Piece)
    requires
        g.wf(),
    ensures
        g.wins(side) <==> side != Piece::Empty && exists|i: int|
            0 <= i < 4 && #[trigger] has_run(g, side, direction_at(i), g.connect),
{
    if g.wins(side) {
        let (r, c, d) = choose|r: int, c: int, d: Direction| #[trigger]
            g.line(side, r, c, d, g.connect);
        lemma_line_is_run(g, side, r, c, d, g.connect);
        let i: int = match d {
            Direction::Vertical => 0,
            Direction::Horizontal => 1,
            Direction::Falling => 2,
            Direction::Rising => 3,
        };
        assert(direction_at(i) == d);
        assert(has_run(g, side, direction_at(i), g.connect));
    }
    if side != Piece::Empty && exists|i: int|
        0 <= i < 4 && #[trigger] has_run(g, side, direction_at(i), g.connect) {
        let i = choose|i: int|
            0 <= i < 4 && #[trigger] has_run(g, side, direction_at(i), g.connect);
        let d = direction_at(i);
        let j = choose|j: int| #[trigger] run_at(g.holds(side), j, d.step(g.stride()), g.connect);
        lemma_run_is_line(g, side, j, d, g.connect);
        assert(g.line(side, j % g.stride(), j / g.stride(), d, g.connect));
    }
}

} // verus!
