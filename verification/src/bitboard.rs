//! The bit-packed board.

use vstd::prelude::*;
use crate::bits::{
    bit, lemma_bit_and, lemma_bit_or, lemma_bit_single, lemma_bit_zero, lemma_disjoint,
    lemma_bit_window, lemma_mask_meets_slot, lemma_nonzero_has_bit, lemma_shifted_one, slots_of,
};
use crate::grid::{
    Grid, lemma_cell_of_slot, lemma_column_of_slot, lemma_geometry_bounds, lemma_slot_of_cell,
};
use crate::lines::{direction_at, has_run, lemma_wins_iff_run};
use crate::runs::{nth_slot, run_at, run_starts};

verus! {

/// What a cell holds.
#[derive(PartialEq, Eq, Structural, Copy, Clone, Debug)]
pub enum Piece {
    Empty,
    Player,
    AI,
}

/// One position. A move never changes a board: it makes a new one.
#[derive(Clone, Debug)]
pub struct BitBoard {
    /// Slots held by the human player.
    pub player_mask: u128,
    /// Slots held by the machine.
    pub ai_mask: u128,
    /// Number of pieces in each column.
    pub heights: Vec<u8>,
    pub rows: u8,
    pub cols: u8,
    /// Pieces in a row needed to win.
    pub connect: u8,
}

/// What two masks say of slot `j`.
pub open spec fn piece_at(player_mask: u128, ai_mask: u128, j: int) -> Piece {
    if bit(player_mask, j) {
        Piece::Player
    } else if bit(ai_mask, j) {
        Piece::AI
    } else {
        Piece::Empty
    }
}

/// The cells of a position that are not set in `taken`.
pub open spec fn free_cells(g: Grid, taken: u128) -> spec_fn(int) -> bool {
    |j: int| g.is_cell(j) && !bit(taken, j)
}

impl View for BitBoard {
    type V = Grid;

    open spec fn view(&self) -> Grid {
        Grid {
            rows: self.rows as nat,
            cols: self.cols as nat,
            connect: self.connect as nat,
            columns: Seq::new(
                self.cols as nat,
                |c: int|
                    Seq::new(
                        self.heights@[c] as nat,
                        |r: int| piece_at(self.player_mask, self.ai_mask, c * (self.rows + 1) + r),
                    ),
            ),
        }
    }
}

impl BitBoard {
    /// Slot `j` lies in a column of the board, below the top of its stack.
    pub open spec fn stacked(&self, j: int) -> bool {
        let stride = self.rows + 1;
        j / stride < self.cols && j % stride < self.heights@[j / stride]
    }

    /// The masks and the column heights describe one position: no slot is
    /// claimed twice, and the claimed slots are exactly those of the stacks.
    pub open spec fn wf(&self) -> bool {
        &&& Grid::geometry_ok(self.rows as nat, self.cols as nat, self.connect as nat)
        &&& self.heights@.len() == self.cols
        &&& forall|c: int| 0 <= c < self.cols ==> #[trigger] self.heights@[c] <= self.rows
        &&& self.player_mask & self.ai_mask == 0
        &&& forall|j: int|
            0 <= j < 128 ==> (#[trigger] bit(self.player_mask | self.ai_mask, j) <==> self.stacked(
                j,
            ))
    }

    /// Of a slot at or above zero, the masks claim it exactly when it lies
    /// in a stack, and never both of them.
    proof fn lemma_claimed(&self, j: int)
        requires
            self.wf(),
            0 <= j,
        ensures
            (bit(self.player_mask, j) || bit(self.ai_mask, j)) <==> self.stacked(j),
            !(bit(self.player_mask, j) && bit(self.ai_mask, j)),
            self.stacked(j) ==> j < 128,
    {
        lemma_bit_and(self.player_mask, self.ai_mask, j);
        lemma_bit_zero(j);
        lemma_bit_or(self.player_mask, self.ai_mask, j);
        lemma_column_of_slot(self.rows + 1, self.cols as int, j);
    }

    /// The cells of a stack are slots that the masks claim.
    proof fn lemma_stack_slot(&self, r: int, c: int)
        requires
            self.wf(),
            0 <= c < self.cols,
            0 <= r <= self.rows,
        ensures
            0 <= c * (self.rows + 1) + r < 128,
            self.stacked(c * (self.rows + 1) + r) <==> r < self.heights@[c],
    {
        let stride = self.rows + 1;
        lemma_slot_of_cell(stride, r, c);
        assert(0 <= c * stride) by (nonlinear_arith)
            requires
                0 <= c,
                0 < stride,
        ;
        lemma_column_of_slot(stride, self.cols as int, c * stride + r);
    }

    /// A well-formed board shows a well-formed position of the same sizes,
    /// its masks share no slot, and each slot of the position holds what the
    /// masks say of it.
    pub proof fn lemma_view(&self)
        requires
            self.wf(),
        ensures
            self@.wf(),
            self@.rows == self.rows,
            self@.cols == self.cols,
            self@.connect == self.connect,
            self.player_mask & self.ai_mask == 0,
            forall|j: int| #[trigger]
                self@.slot(j) == piece_at(self.player_mask, self.ai_mask, j),
    {
        let g = self@;
        let stride = self.rows + 1;
        assert forall|c: int, r: int| 0 <= c < g.cols && 0 <= r < g.columns[c].len() implies
            #[trigger] g.columns[c][r] != Piece::Empty by {
            self.lemma_stack_slot(r, c);
            self.lemma_claimed(c * stride + r);
        }
        assert forall|j: int| #[trigger] g.slot(j) == piece_at(
            self.player_mask,
            self.ai_mask,
            j,
        ) by {
            if 0 <= j {
                self.lemma_claimed(j);
                lemma_cell_of_slot(stride, j);
            }
        }
    }

    /// What holds of every board that was built empty and filled by drops:
    /// no slot belongs to both sides, no column is higher than the board,
    /// and every slot that is taken lies in a column of the board, below the
    /// top of its stack and so below the spare slot.
    pub proof fn lemma_invariants(&self)
        requires
            self.wf(),
        ensures
            self.player_mask & self.ai_mask == 0,
            forall|c: int| 0 <= c < self.cols ==> #[trigger] self.heights@[c] <= self.rows,
            forall|j: int| #[trigger]
                bit(self.player_mask | self.ai_mask, j) ==> {
                    let c = j / (self.rows + 1);
                    &&& 0 <= c < self.cols
                    &&& c * (self.rows + 1) <= j < c * (self.rows + 1) + self.heights@[c]
                    &&& j <= c * (self.rows + 1) + self.rows - 1
                },
    {
        assert forall|j: int| #[trigger] bit(self.player_mask | self.ai_mask, j) implies {
            let c = j / (self.rows + 1);
            &&& 0 <= c < self.cols
            &&& c * (self.rows + 1) <= j < c * (self.rows + 1) + self.heights@[c]
            &&& j <= c * (self.rows + 1) + self.rows - 1
        } by {
            lemma_cell_of_slot(self.rows + 1, j);
        }
    }

    /// The masks of a well-formed board hold exactly the slots that the
    /// position gives to each side, and the cells that neither mask holds
    /// are the empty cells of the position.
    pub proof fn lemma_masks(&self)
        requires
            self.wf(),
        ensures
            slots_of(self.player_mask) == self@.holds(Piece::Player),
            slots_of(self.ai_mask) == self@.holds(Piece::AI),
            free_cells(self@, self.player_mask | self.ai_mask) == self@.free(),
    {
        self.lemma_view();
        assert forall|j: int|
            bit(self.player_mask, j) == (self@.slot(j) == Piece::Player) && bit(self.ai_mask, j)
                == (self@.slot(j) == Piece::AI) && !bit(self.player_mask | self.ai_mask, j) == (
            self@.slot(j) == Piece::Empty) by {
            lemma_bit_or(self.player_mask, self.ai_mask, j);
            if 0 <= j {
                self.lemma_claimed(j);
            }
        }
        assert(slots_of(self.player_mask) =~= self@.holds(Piece::Player));
        assert(slots_of(self.ai_mask) =~= self@.holds(Piece::AI));
        assert(free_cells(self@, self.player_mask | self.ai_mask) =~= self@.free());
    }

    /// An empty board of the given sizes.
    pub fn new(rows: u8, cols: u8, connect: u8) -> (b: Self)
        requires
            Grid::geometry_ok(rows as nat, cols as nat, connect as nat),
        ensures
            b.wf(),
            b@ == Grid::empty(rows as nat, cols as nat, connect as nat),
            b.rows == rows,
            b.cols == cols,
            b.connect == connect,
            b.player_mask == 0,
            b.ai_mask == 0,
    {
        let heights = vec![0u8; cols as usize];
        let b = BitBoard { player_mask: 0, ai_mask: 0, heights, rows, cols, connect };
        proof {
            assert(0u128 & 0u128 == 0 && 0u128 | 0u128 == 0) by (bit_vector);
            assert forall|j: int| 0 <= j < 128 implies (#[trigger] bit(
                b.player_mask | b.ai_mask,
                j,
            ) <==> b.stacked(j)) by {
                lemma_bit_zero(j);
                lemma_cell_of_slot(rows + 1, j);
            }
            assert(b@.columns =~~= Grid::empty(rows as nat, cols as nat, connect as nat).columns);
        }
        b
    }

    // The slot of cell `(row, col)`.
    fn bit_index(&self, row: u8, col: u8) -> (j: u8)
        requires
            self.wf(),
            row <= self.rows,
            col < self.cols,
        ensures
            j == col * (self.rows + 1) + row,
            j < 128,
    {
        proof {
            lemma_geometry_bounds(self.rows as nat, self.cols as nat, self.connect as nat);
            self.lemma_stack_slot(row as int, col as int);
            assert(0 <= col * (self.rows + 1)) by (nonlinear_arith);
        }
        col * (self.rows + 1) + row
    }

    // The mask that holds the slot of cell `(row, col)` and no other.
    fn bit(&self, row: u8, col: u8) -> (m: u128)
        requires
            self.wf(),
            row <= self.rows,
            col < self.cols,
        ensures
            forall|i: int| bit(m, i) <==> i == col * (self.rows + 1) + row,
    {
        let j = self.bit_index(row, col);
        proof {
            assert forall|i: int| bit(1u128 << j, i) <==> i == j by {
                lemma_bit_single(j as u128, i);
                assert(1u128 << j == 1u128 << (j as u128)) by (bit_vector);
            }
        }
        1u128 << j
    }

    /// Whether column `col` takes another piece.
    pub fn is_valid_location(&self, col: u8) -> (ok: bool)
        requires
            self.wf(),
            col < self.cols,
        ensures
            ok == self@.can_drop(col as int),
    {
        self.heights[col as usize] < self.rows
    }

    /// The columns that take another piece, in ascending order.
    pub fn get_valid_locations(&self) -> (v: Vec<u8>)
        requires
            self.wf(),
        ensures
            self@.lists_moves(v@),
    {
        let mut v: Vec<u8> = Vec::new();
        let mut c: u8 = 0;
        while c < self.cols
            invariant
                self.wf(),
                c <= self.cols,
                forall|i: int, k: int| 0 <= i < k < v@.len() ==> v@[i] < v@[k],
                forall|i: int|
                    0 <= i < v@.len() ==> #[trigger] v@[i] < c && self@.can_drop(v@[i] as int),
                forall|d: int| 0 <= d < c && self@.can_drop(d) ==> v@.contains(d as u8),
            decreases self.cols - c,
        {
            if self.is_valid_location(c) {
                let ghost before = v@;
                v.push(c);
                proof {
                    assert(v@[before.len() as int] == c);
                    assert forall|d: int| 0 <= d < c + 1 && self@.can_drop(d) implies v@.contains(
                        d as u8,
                    ) by {
                        if d < c {
                            let i = choose|i: int| 0 <= i < before.len() && before[i] == d as u8;
                            assert(v@[i] == d as u8);
                        }
                    }
                }
            }
            c += 1;
        }
        v
    }

    /// Whether every column is full.
    pub fn is_full(&self) -> (full: bool)
        requires
            self.wf(),
        ensures
            full == self@.full(),
    {
        let mut c: u8 = 0;
        while c < self.cols
            invariant
                self.wf(),
                c <= self.cols,
                forall|d: int| 0 <= d < c ==> #[trigger] self@.height(d) >= self.rows,
            decreases self.cols - c,
        {
            if self.heights[c as usize] < self.rows {
                assert(self@.height(c as int) < self.rows);
                return false;
            }
            c += 1;
        }
        true
    }

    /// Drops a piece of `piece`'s side into column `col`. A full column
    /// takes none: the answer is then `None`. `piece` is one of the two
    /// sides: a column that is raised with no slot set would leave the
    /// heights and the masks in disagreement.
    pub fn drop_piece(&self, col: u8, piece: Piece) -> (dropped: Option<Self>)
        requires
            self.wf(),
            col < self.cols,
            piece != Piece::Empty,
        ensures
            dropped is None <==> !self@.can_drop(col as int),
            dropped matches Some(b) ==> b.wf() && b@ == self@.drop(col as int, piece),
    {
        if !self.is_valid_location(col) {
            return None;
        }
        let row = self.heights[col as usize];
        let bit_to_set = self.bit(row, col);
        let mut heights = self.heights.clone();
        heights.set(col as usize, row + 1);
        let mut player_mask = self.player_mask;
        let mut ai_mask = self.ai_mask;
        match piece {
            Piece::Player => {
                player_mask = player_mask | bit_to_set;
            },
            Piece::AI => {
                ai_mask = ai_mask | bit_to_set;
            },
            _ => {},
        }
        let b = BitBoard {
            player_mask,
            ai_mask,
            heights,
            rows: self.rows,
            cols: self.cols,
            connect: self.connect,
        };
        proof {
            self.lemma_dropped(&b, col, piece, bit_to_set);
        }
        Some(b)
    }

    /// Setting the slot on top of a stack in one mask, and raising that
    /// stack by one, is a drop.
    proof fn lemma_dropped(&self, b: &BitBoard, col: u8, piece: Piece, slot_mask: u128)
        requires
            self.wf(),
            col < self.cols,
            self.heights@[col as int] < self.rows,
            piece != Piece::Empty,
            forall|i: int|
                bit(slot_mask, i) <==> i == col * (self.rows + 1) + self.heights@[col as int],
            b.rows == self.rows,
            b.cols == self.cols,
            b.connect == self.connect,
            b.heights@ == self.heights@.update(
                col as int,
                (self.heights@[col as int] + 1) as u8,
            ),
            piece == Piece::Player ==> b.player_mask == self.player_mask | slot_mask && b.ai_mask
                == self.ai_mask,
            piece == Piece::AI ==> b.ai_mask == self.ai_mask | slot_mask && b.player_mask
                == self.player_mask,
        ensures
            b.wf(),
            b@ == self@.drop(col as int, piece),
    {
        let stride = self.rows + 1;
        let row = self.heights@[col as int] as int;
        let top = col * stride + row;
        self.lemma_stack_slot(row, col as int);
        self.lemma_claimed(top);
        assert forall|j: int| 0 <= j implies (b.stacked(j) <==> self.stacked(j) || j == top) && (
        bit(b.player_mask, j) <==> bit(self.player_mask, j) || (piece == Piece::Player && j
            == top)) && (bit(b.ai_mask, j) <==> bit(self.ai_mask, j) || (piece == Piece::AI && j
            == top)) by {
            lemma_cell_of_slot(stride, j);
            lemma_slot_of_cell(stride, row, col as int);
            lemma_bit_or(self.player_mask, slot_mask, j);
            lemma_bit_or(self.ai_mask, slot_mask, j);
        }
        assert forall|i: int| !(bit(b.player_mask, i) && bit(b.ai_mask, i)) by {
            if 0 <= i {
                self.lemma_claimed(i);
            }
        }
        lemma_disjoint(b.player_mask, b.ai_mask);
        assert forall|j: int| 0 <= j < 128 implies (#[trigger] bit(
            b.player_mask | b.ai_mask,
            j,
        ) <==> b.stacked(j)) by {
            self.lemma_claimed(j);
            lemma_bit_or(b.player_mask, b.ai_mask, j);
        }
        let g = self@.drop(col as int, piece);
        assert forall|c: int| 0 <= c < self.cols implies #[trigger] b@.columns[c]
            =~= g.columns[c] by {
            assert forall|r: int| 0 <= r < b.heights@[c] implies b@.columns[c][r]
                == g.columns[c][r] by {
                self.lemma_stack_slot(r, c);
                lemma_slot_of_cell(stride, r, c);
                lemma_slot_of_cell(stride, row, col as int);
            }
        }
        assert(b@.columns =~= g.columns);
    }

    /// The mask of the cells of the board: every slot of every column but
    /// the spare one on top.
    pub fn cells(&self) -> (m: u128)
        requires
            self.wf(),
        ensures
            slots_of(m) == self@.cells(),
    {
        proof {
            lemma_geometry_bounds(self.rows as nat, self.cols as nat, self.connect as nat);
            lemma_shifted_one(self.rows as u128);
        }
        let ghost stride = self.rows + 1;
        let full: u128 = (1u128 << self.rows) - 1;
        let mut m: u128 = 0;
        let mut c: u8 = 0;
        proof {
            assert forall|j: int| bit(m, j) <==> self@.is_cell(j) && j / stride < c by {
                lemma_bit_zero(j);
                if 0 <= j {
                    lemma_cell_of_slot(stride, j);
                }
            }
        }
        while c < self.cols
            invariant
                self.wf(),
                c <= self.cols,
                stride == self.rows + 1,
                2 <= self.rows <= 63,
                full == (1u128 << self.rows) - 1,
                forall|j: int| bit(m, j) <==> self@.is_cell(j) && j / stride < c,
            decreases self.cols - c,
        {
            proof {
                self.lemma_stack_slot(self.rows as int, c as int);
            }
            let col_start: u8 = c * (self.rows + 1);
            let ghost before = m;
            m = m | (full << col_start);
            proof {
                assert forall|j: int| bit(m, j) <==> self@.is_cell(j) && j / stride < c + 1 by {
                    lemma_bit_or(before, full << col_start, j);
                    lemma_bit_window(full, self.rows as u128, col_start as u128, j);
                    if 0 <= j {
                        lemma_cell_of_slot(stride, j);
                        if col_start <= j < col_start + self.rows {
                            lemma_slot_of_cell(stride, j - col_start, c as int);
                        }
                    }
                }
            }
            c += 1;
        }
        proof {
            assert(slots_of(m) =~= self@.cells());
        }
        m
    }

    /// The slot distances of the four directions, in the order in which
    /// they are tried.
    pub fn steps(&self) -> (s: [u8; 4])
        requires
            self.wf(),
        ensures
            forall|i: int|
                0 <= i < 4 ==> #[trigger] s[i] == direction_at(i).step(self@.stride()) && 1
                    <= s[i] <= 65,
    {
        proof {
            lemma_geometry_bounds(self.rows as nat, self.cols as nat, self.connect as nat);
        }
        let stride = self.rows + 1;
        [1, stride, stride - 1, stride + 1]
    }

    /// Whether `piece`'s side has `connect` pieces in a row.
    pub fn check_win(&self, piece: Piece) -> (won: bool)
        requires
            self.wf(),
        ensures
            won == self@.wins(piece),
    {
        let mask = match piece {
            Piece::Player => self.player_mask,
            Piece::AI => self.ai_mask,
            _ => 0,
        };
        let directions = self.steps();
        proof {
            self.lemma_masks();
            self.lemma_view();
            lemma_wins_iff_run(self@, piece);
        }
        let mut i: usize = 0;
        while i < 4
            invariant
                self.wf(),
                i <= 4,
                forall|k: int|
                    0 <= k < 4 ==> #[trigger] directions[k] == direction_at(k).step(
                        self@.stride(),
                    ) && 1 <= directions[k] <= 65,
                piece != Piece::Empty ==> slots_of(mask) == self@.holds(piece),
                piece == Piece::Empty ==> mask == 0,
                self@.connect == self.connect,
                self.connect >= 2,
                self@.wins(piece) <==> piece != Piece::Empty && exists|k: int|
                    0 <= k < 4 && #[trigger] has_run(self@, piece, direction_at(k), self@.connect),
                forall|k: int|
                    0 <= k < i ==> !#[trigger] has_run(
                        self@,
                        piece,
                        direction_at(k),
                        self@.connect,
                    ) || piece == Piece::Empty,
            decreases 4 - i,
        {
            let current = run_starts(mask, directions[i], self.connect);
            let ghost step = direction_at(i as int).step(self@.stride());
            if current != 0 {
                proof {
                    let j = lemma_nonzero_has_bit(current);
                    assert(run_at(slots_of(mask), j, step, self@.connect));
                    assert(slots_of(mask)(nth_slot(j, step, 0)));
                    lemma_bit_zero(nth_slot(j, step, 0));
                    assert(has_run(self@, piece, direction_at(i as int), self@.connect));
                }
                return true;
            }
            proof {
                if piece != Piece::Empty {
                    assert forall|j: int| !#[trigger] run_at(
                        self@.holds(piece),
                        j,
                        step,
                        self@.connect,
                    ) by {
                        lemma_bit_zero(j);
                    }
                }
            }
            i += 1;
        }
        false
    }

    /// Whether `piece`'s side wins with its next piece.
    pub fn can_win_next_move(&self, piece: Piece) -> (can: bool)
        requires
            self.wf(),
        ensures
            can == exists|c: int| self@.can_drop(c) && #[trigger] self@.drop(c, piece).wins(piece),
    {
        match piece {
            Piece::Empty => {
                return false;
            },
            _ => {},
        }
        let moves = self.get_valid_locations();
        let mut i: usize = 0;
        while i < moves.len()
            invariant
                self.wf(),
                piece != Piece::Empty,
                self@.lists_moves(moves@),
                i <= moves.len(),
                forall|k: int|
                    0 <= k < i ==> !(#[trigger] self@.drop(moves@[k] as int, piece)).wins(piece),
            decreases moves.len() - i,
        {
            let col = moves[i];
            proof {
                assert(self@.can_drop(moves@[i as int] as int));
                self.lemma_view();
            }
            let next = self.drop_piece(col, piece).unwrap();
            if next.check_win(piece) {
                return true;
            }
            i += 1;
        }
        proof {
            assert forall|c: int| self@.can_drop(c) implies !(#[trigger] self@.drop(c, piece)).wins(
                piece,
            ) by {
                assert(moves@.contains(c as u8));
                let k = choose|k: int| 0 <= k < moves@.len() && moves@[k] == c as u8;
                assert(moves@[k] as int == c);
            }
        }
        false
    }

    /// What cell `(row, col)` holds.
    pub fn get_piece(&self, row: u8, col: u8) -> (p: Piece)
        requires
            self.wf(),
            row < self.rows,
            col < self.cols,
        ensures
            p == self@.cell(row as int, col as int),
    {
        let m = self.bit(row, col);
        proof {
            let j = col * (self.rows + 1) + row;
            self.lemma_view();
            self.lemma_stack_slot(row as int, col as int);
            lemma_slot_of_cell(self.rows + 1, row as int, col as int);
            assert(self@.slot(j) == self@.cell(row as int, col as int));
            lemma_mask_meets_slot(self.player_mask, m, j);
            lemma_mask_meets_slot(self.ai_mask, m, j);
        }
        if self.player_mask & m != 0 {
            Piece::Player
        } else if self.ai_mask & m != 0 {
            Piece::AI
        } else {
            Piece::Empty
        }
    }
}

} // verus!
