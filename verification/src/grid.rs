//! The position as mathematics: one stack of pieces per column.
//!
//! Every contract of the board and of the search is stated over [`Grid`].
//! Slots number the cells column by column, `rows + 1` slots to a column; the
//! last slot of each column, and every slot past the last column, is spare
//! and always empty.

use vstd::prelude::*;
use vstd::arithmetic::div_mod::*;
use vstd::arithmetic::mul::*;
use crate::bitboard::Piece;

verus! {

/// The four ways a winning line can run, each taken towards higher columns
/// (or, for a vertical line, towards higher rows).
pub enum Direction {
    Vertical,
    Horizontal,
    Rising,
    Falling,
}

impl Direction {
    /// Change of row from one cell of a line to the next.
    pub open spec fn dr(self) -> int {
        match self {
            Direction::Vertical => 1,
            Direction::Horizontal => 0,
            Direction::Rising => 1,
            Direction::Falling => -1,
        }
    }

    /// Change of column from one cell of a line to the next.
    pub open spec fn dc(self) -> int {
        match self {
            Direction::Vertical => 0,
            Direction::Horizontal => 1,
            Direction::Rising => 1,
            Direction::Falling => 1,
        }
    }

    /// Distance in slots from one cell of a line to the next.
    pub open spec fn step(self, stride: int) -> int {
        match self {
            Direction::Vertical => 1,
            Direction::Horizontal => stride,
            Direction::Rising => stride + 1,
            Direction::Falling => stride - 1,
        }
    }
}

/// The side that plays against `side`; `Empty` has no opponent.
pub open spec fn opponent(side: Piece) -> Piece {
    match side {
        Piece::Player => Piece::AI,
        Piece::AI => Piece::Player,
        Piece::Empty => Piece::Empty,
    }
}

/// A position: `columns[c]` lists the pieces of column `c` from the bottom.
pub struct Grid {
    pub rows: nat,
    pub cols: nat,
    pub connect: nat,
    pub columns: Seq<Seq<Piece>>,
}

impl Grid {
    /// The sizes a board can be built with: the win length fits both ways,
    /// and all columns with their spare slots fit in 128 slots.
    pub open spec fn geometry_ok(rows: nat, cols: nat, connect: nat) -> bool {
        &&& 2 <= connect
        &&& connect <= rows
        &&& connect <= cols
        &&& cols * (rows + 1) <= 128
    }

    pub open spec fn wf(self) -> bool {
        &&& Self::geometry_ok(self.rows, self.cols, self.connect)
        &&& self.columns.len() == self.cols
        &&& forall|c: int| 0 <= c < self.cols ==> (#[trigger] self.columns[c]).len() <= self.rows
        &&& forall|c: int, r: int|
            0 <= c < self.cols && 0 <= r < self.columns[c].len() ==> #[trigger] self.columns[c][r]
                != Piece::Empty
    }

    /// The board with no piece on it.
    pub open spec fn empty(rows: nat, cols: nat, connect: nat) -> Grid {
        Grid { rows, cols, connect, columns: Seq::new(cols, |c: int| Seq::<Piece>::empty()) }
    }

    /// Slots per column: the rows and one spare slot.
    pub open spec fn stride(self) -> int {
        (self.rows + 1) as int
    }

    /// Number of pieces in column `c`.
    pub open spec fn height(self, c: int) -> nat {
        if 0 <= c < self.columns.len() {
            self.columns[c].len()
        } else {
            0
        }
    }

    /// What stands at `(r, c)`; `Empty` above the stack and off the board.
    pub open spec fn cell(self, r: int, c: int) -> Piece {
        if 0 <= c < self.columns.len() && 0 <= r < self.columns[c].len() {
            self.columns[c][r]
        } else {
            Piece::Empty
        }
    }

    /// What stands at slot `j`, that is at row `j % stride` of column
    /// `j / stride`.
    pub open spec fn slot(self, j: int) -> Piece {
        if 0 <= j {
            self.cell(j % self.stride(), j / self.stride())
        } else {
            Piece::Empty
        }
    }

    /// Slot `j` is a cell of the board: it lies in one of the columns, below
    /// the spare slot.
    pub open spec fn is_cell(self, j: int) -> bool {
        0 <= j && j / self.stride() < self.cols && j % self.stride() < self.rows
    }

    /// The slots that are cells of the board.
    pub open spec fn cells(self) -> spec_fn(int) -> bool {
        |j: int| self.is_cell(j)
    }

    /// The slots that are empty cells of the board. A spare slot is never
    /// one of them: it holds nothing, but no piece can be put there.
    pub open spec fn free(self) -> spec_fn(int) -> bool {
        |j: int| self.is_cell(j) && self.slot(j) == Piece::Empty
    }

    /// Whether a piece may still be dropped into column `c`.
    pub open spec fn can_drop(self, c: int) -> bool {
        0 <= c < self.cols && self.height(c) < self.rows
    }

    /// The position after `side` drops a piece into column `c`.
    pub open spec fn drop(self, c: int, side: Piece) -> Grid {
        Grid { columns: self.columns.update(c, self.columns[c].push(side)), ..self }
    }

    /// No column takes another piece.
    pub open spec fn full(self) -> bool {
        forall|c: int| 0 <= c < self.cols ==> #[trigger] self.height(c) >= self.rows
    }

    /// `s` lists the columns that take another piece, each once, in
    /// ascending order.
    pub open spec fn lists_moves(self, s: Seq<u8>) -> bool {
        &&& forall|i: int, k: int| 0 <= i < k < s.len() ==> s[i] < s[k]
        &&& forall|i: int| 0 <= i < s.len() ==> self.can_drop(#[trigger] s[i] as int)
        &&& forall|c: int| self.can_drop(c) ==> s.contains(c as u8)
    }

    /// The `k`-th cell of the line from `(r, c)` along `d`.
    pub open spec fn cell_along(self, r: int, c: int, d: Direction, k: int) -> Piece {
        self.cell(r + k * d.dr(), c + k * d.dc())
    }

    /// `len` cells in a row from `(r, c)` along `d` all hold `side`.
    pub open spec fn line(self, side: Piece, r: int, c: int, d: Direction, len: nat) -> bool {
        forall|k: int| 0 <= k < len ==> #[trigger] self.cell_along(r, c, d, k) == side
    }

    /// `side` has `connect` pieces in a row somewhere on the board.
    pub open spec fn wins(self, side: Piece) -> bool {
        side != Piece::Empty && exists|r: int, c: int, d: Direction| #[trigger]
            self.line(side, r, c, d, self.connect)
    }

    /// The slots that hold `side`.
    pub open spec fn holds(self, side: Piece) -> spec_fn(int) -> bool {
        |j: int| self.slot(j) == side
    }
}

/// Dropping a piece into a column that takes one leaves a position that is
/// well-formed, with the piece on top of that column and nothing else
/// changed.
pub proof fn lemma_drop(g: Grid, c: int, side: Piece)
    requires
        g.wf(),
        g.can_drop(c),
        side != Piece::Empty,
    ensures
        g.drop(c, side).wf(),
        g.drop(c, side).height(c) == g.height(c) + 1,
        g.drop(c, side).cell(g.height(c) as int, c) == side,
        forall|r: int, k: int|
            !(r == g.height(c) && k == c) ==> #[trigger] g.drop(c, side).cell(r, k) == g.cell(r, k),
        forall|k: int| k != c ==> #[trigger] g.drop(c, side).height(k) == g.height(k),
{
    let d = g.drop(c, side);
    assert forall|k: int, r: int| 0 <= k < d.cols && 0 <= r < d.columns[k].len() implies
        #[trigger] d.columns[k][r] != Piece::Empty by {
        if k == c && r < g.columns[c].len() {
            assert(d.columns[k][r] == g.columns[k][r]);
        }
    }
}

/// A drop gives no line to the side that did not move, and takes none from
/// either side.
pub proof fn lemma_drop_lines(g: Grid, c: int, mover: Piece, side: Piece)
    requires
        g.wf(),
        g.can_drop(c),
        mover != Piece::Empty,
    ensures
        g.wins(side) ==> g.drop(c, mover).wins(side),
        side != mover && g.drop(c, mover).wins(side) ==> g.wins(side),
{
    let after = g.drop(c, mover);
    lemma_drop(g, c, mover);
    if g.wins(side) {
        let (r, k, d) = choose|r: int, k: int, d: Direction| #[trigger]
            g.line(side, r, k, d, g.connect);
        assert forall|i: int| 0 <= i < g.connect implies #[trigger] after.cell_along(r, k, d, i)
            == side by {
            assert(g.cell_along(r, k, d, i) == side);
        }
        assert(after.line(side, r, k, d, after.connect));
    }
    if side != mover && after.wins(side) {
        let (r, k, d) = choose|r: int, k: int, d: Direction| #[trigger]
            after.line(side, r, k, d, after.connect);
        assert forall|i: int| 0 <= i < g.connect implies #[trigger] g.cell_along(r, k, d, i)
            == side by {
            assert(after.cell_along(r, k, d, i) == side);
        }
        assert(g.line(side, r, k, d, g.connect));
    }
}

/// The empty board is well-formed, nobody has a line on it, and it is not
/// full.
pub proof fn lemma_empty(rows: nat, cols: nat, connect: nat, side: Piece)
    requires
        Grid::geometry_ok(rows, cols, connect),
    ensures
        Grid::empty(rows, cols, connect).wf(),
        !Grid::empty(rows, cols, connect).wins(side),
        !Grid::empty(rows, cols, connect).full(),
{
    let g = Grid::empty(rows, cols, connect);
    assert forall|r: int, c: int, d: Direction| !#[trigger] g.line(side, r, c, d, connect) || side
        == Piece::Empty by {
        if side != Piece::Empty {
            assert(g.cell_along(r, c, d, 0) == Piece::Empty);
        }
    }
    assert(g.height(0) == 0);
}

/// A position that is not full has a column that takes a piece.
pub proof fn lemma_not_full(g: Grid) -> (c: int)
    requires
        !g.full(),
    ensures
        g.can_drop(c),
{
    choose|c: int| 0 <= c < g.cols && !(#[trigger] g.height(c) >= g.rows)
}

/// How large the sides of a board can be.
pub proof fn lemma_geometry_bounds(rows: nat, cols: nat, connect: nat)
    requires
        Grid::geometry_ok(rows, cols, connect),
    ensures
        2 <= rows <= 63,
        2 <= cols <= 42,
        connect <= 10,
{
    assert(rows <= 63 && cols <= 42 && connect <= 10) by (nonlinear_arith)
        requires
            2 <= connect <= rows,
            connect <= cols,
            cols * (rows + 1) <= 128,
    ;
}

/// A walk of fewer than `connect` steps, each no longer than a diagonal
/// step, stays within the 128 slots.
pub proof fn lemma_reach_fits(rows: nat, cols: nat, connect: nat, step: nat, len: nat)
    requires
        Grid::geometry_ok(rows, cols, connect),
        step <= rows + 2,
        len < connect,
    ensures
        step * len < 128,
{
    lemma_geometry_bounds(rows, cols, connect);
    assert(step * len <= (rows + 2) * len) by (nonlinear_arith)
        requires
            step <= rows + 2,
    ;
    if cols <= rows {
        assert((rows + 2) * len <= 126) by (nonlinear_arith)
            requires
                len <= cols - 1,
                cols <= rows,
                cols * (rows + 1) <= 128,
        ;
    } else {
        assert((rows + 2) * len <= 126) by (nonlinear_arith)
            requires
                len <= rows - 1,
                rows < cols,
                cols * (rows + 1) <= 128,
        ;
    }
}

/// Slot `c * stride + r` is row `r` of column `c`.
pub proof fn lemma_slot_of_cell(stride: int, r: int, c: int)
    requires
        0 <= r < stride,
    ensures
        (c * stride + r) / stride == c,
        (c * stride + r) % stride == r,
{
    lemma_fundamental_div_mod_converse(c * stride + r, stride, c, r);
}

/// Every slot is a row of a column.
pub proof fn lemma_cell_of_slot(stride: int, j: int)
    requires
        0 < stride,
    ensures
        j == (j / stride) * stride + j % stride,
        0 <= j % stride < stride,
        0 <= j ==> 0 <= j / stride,
{
    lemma_fundamental_div_mod(j, stride);
    lemma_mul_is_commutative(stride, j / stride);
    lemma_mod_bound(j, stride);
    if 0 <= j {
        lemma_div_pos_is_pos(j, stride);
    }
}

/// The cells of columns below `cols` fill exactly the slots below
/// `cols * stride`.
pub proof fn lemma_column_of_slot(stride: int, cols: int, j: int)
    requires
        0 < stride,
        0 <= cols,
        0 <= j,
    ensures
        j / stride < cols <==> j < cols * stride,
{
    lemma_cell_of_slot(stride, j);
    let q = j / stride;
    if q < cols {
        assert(q * stride + stride <= cols * stride) by (nonlinear_arith)
            requires
                q + 1 <= cols,
                0 < stride,
        ;
    } else {
        assert(q * stride >= cols * stride) by (nonlinear_arith)
            requires
                q >= cols,
                0 < stride,
        ;
    }
}

} // verus!
