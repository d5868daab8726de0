//! One move of a game, and what it leads to.

use vstd::prelude::*;
use crate::bitboard::{BitBoard, Piece};
use crate::grid::opponent;

verus! {

/// What came of a move.
pub enum Played {
    /// The column was full: no piece was dropped.
    ColumnFull,
    /// The piece completed a winning line.
    Won(BitBoard),
    /// The piece filled the board, and nobody has won.
    Draw(BitBoard),
    /// The game goes on with the other side.
    Next(BitBoard, Piece),
}

impl Played {
    /// The board after the move, if a piece was dropped.
    pub open spec fn board(self) -> Option<BitBoard> {
        match self {
            Played::ColumnFull => None,
            Played::Won(b) => Some(b),
            Played::Draw(b) => Some(b),
            Played::Next(b, _) => Some(b),
        }
    }
}

/// Drops a piece of `current` into column `col` and says how the game
/// stands: a win is looked for first, then a full board.
pub fn play_move(board: &BitBoard, col: u8, current: Piece) -> (played: Played)
    requires
        board.wf(),
        col < board.cols,
        current != Piece::Empty,
    ensures
        played is ColumnFull <==> !board@.can_drop(col as int),
        played.board() matches Some(b) ==> b.wf() && b@ == board@.drop(col as int, current),
        played is Won <==> board@.can_drop(col as int) && board@.drop(col as int, current).wins(
            current,
        ),
        played is Draw <==> board@.can_drop(col as int) && !board@.drop(col as int, current).wins(
            current,
        ) && board@.drop(col as int, current).full(),
        played matches Played::Next(_, side) ==> side == opponent(current),
{
    match board.drop_piece(col, current) {
        Some(new_board) => {
            if new_board.check_win(current) {
                Played::Won(new_board)
            } else if new_board.is_full() {
                Played::Draw(new_board)
            } else {
                let next = match current {
                    Piece::Player => Piece::AI,
                    _ => Piece::Player,
                };
                Played::Next(new_board, next)
            }
        },
        None => Played::ColumnFull,
    }
}

} // verus!
