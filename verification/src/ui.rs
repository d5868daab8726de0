//! The state of a game that is played in a window: whose turn it is, whether
//! the game is over, and what to tell the player. Drawing is not its
//! business; it is told of a click and of a new frame.

use vstd::prelude::*;
use crate::bitboard::{BitBoard, Piece};
use crate::game_tree::full_search;
use crate::minimax::{best_move, column, decided};
use crate::turn::{play_move, Played};

verus! {

/// A game against the machine, as a window shows it.
pub struct Connect4App {
    pub game_state: BitBoard,
    pub difficulty: u8,
    pub current: Piece,
    pub game_over: bool,
    pub message: String,
    /// The machine moves at the next frame.
    pub ai_move_queued: bool,
}

impl Connect4App {
    /// The board is well-formed and one of the two sides is to move.
    pub open spec fn wf(&self) -> bool {
        self.game_state.wf() && self.current != Piece::Empty
    }

    /// Whether a click on a column is taken as a move of the player.
    pub open spec fn takes_click(&self, col: int) -> bool {
        self.current == Piece::Player && !self.game_over && self.game_state@.can_drop(col)
    }

    /// Whether the machine moves at the next frame.
    pub open spec fn machine_moves(&self) -> bool {
        self.ai_move_queued && self.current == Piece::AI && !self.game_over
    }

    /// A game on `board` that the player starts, or the machine.
    pub fn new(board: BitBoard, difficulty: u8, player_starts: bool) -> (app: Self)
        requires
            board.wf(),
        ensures
            app.wf(),
            app.game_state == board,
            app.difficulty == difficulty,
            app.current == if player_starts {
                Piece::Player
            } else {
                Piece::AI
            },
            !app.game_over,
            app.message@.len() == 0,
            !app.ai_move_queued,
    {
        let current = if player_starts {
            Piece::Player
        } else {
            Piece::AI
        };
        Connect4App {
            game_state: board,
            difficulty,
            current,
            game_over: false,
            message: String::new(),
            ai_move_queued: false,
        }
    }

    /// The player has clicked on column `col`. While it is the player's turn
    /// and the column takes a piece, the piece is dropped: a win or a full
    /// board ends the game, otherwise the machine is to move at the next
    /// frame, and the answer asks for that frame.
    pub fn click(&mut self, col: u8) -> (repaint: bool)
        requires
            old(self).wf(),
            col < old(self).game_state.cols,
        ensures
            final(self).wf(),
            final(self).difficulty == old(self).difficulty,
            !old(self).takes_click(col as int) ==> *final(self) == *old(self) && !repaint,
            old(self).takes_click(col as int) ==> {
                let g = old(self).game_state@.drop(col as int, Piece::Player);
                &&& final(self).game_state@ == g
                &&& final(self).game_over == (g.wins(Piece::Player) || g.full())
                &&& g.wins(Piece::Player) ==> final(self).message@ == "You win!"@
                &&& !g.wins(Piece::Player) && g.full() ==> final(self).message@ == "It's a draw!"@
                &&& !final(self).game_over ==> final(self).message == old(self).message
                &&& final(self).current == if final(self).game_over {
                    Piece::Player
                } else {
                    Piece::AI
                }
                &&& final(self).game_over ==> final(self).ai_move_queued == old(self).ai_move_queued
                &&& !final(self).game_over ==> final(self).ai_move_queued
                &&& repaint == !final(self).game_over
            },
    {
        let mine = match self.current {
            Piece::Player => true,
            _ => false,
        };
        if mine && !self.game_over {
            match play_move(&self.game_state, col, Piece::Player) {
                Played::ColumnFull => false,
                Played::Won(new_board) => {
                    self.game_state = new_board;
                    self.game_over = true;
                    self.message = "You win!".to_owned();
                    false
                },
                Played::Draw(new_board) => {
                    self.game_state = new_board;
                    self.game_over = true;
                    self.message = "It's a draw!".to_owned();
                    false
                },
                Played::Next(new_board, _) => {
                    self.game_state = new_board;
                    self.current = Piece::AI;
                    self.ai_move_queued = true;
                    true
                },
            }
        } else {
            false
        }
    }

    /// A new frame is drawn. If the machine is to move, it plays the column
    /// that its search chooses: a win or a full board ends the game,
    /// otherwise the player is next. If the search finds no column, the
    /// game ends.
    pub fn ai_turn(&mut self)
        requires
            old(self).wf(),
        ensures
            final(self).wf(),
            final(self).difficulty == old(self).difficulty,
            !old(self).machine_moves() ==> *final(self) == *old(self),
            old(self).machine_moves() ==> {
                let found = full_search(old(self).game_state@, old(self).difficulty as nat, true).0;
                &&& !final(self).ai_move_queued
                &&& found is None ==> {
                    &&& final(self).game_state == old(self).game_state
                    &&& final(self).game_over
                    &&& final(self).message@ == "AI has no valid moves!"@
                    &&& final(self).current == Piece::AI
                }
                &&& found matches Some(c) ==> {
                    let g = old(self).game_state@.drop(c, Piece::AI);
                    &&& final(self).game_state@ == g
                    &&& final(self).game_over == (g.wins(Piece::AI) || g.full())
                    &&& g.wins(Piece::AI) ==> final(self).message@ == "AI wins!"@
                    &&& !g.wins(Piece::AI) && g.full() ==> final(self).message@ == "It's a draw!"@
                    &&& !final(self).game_over ==> final(self).message == old(self).message
                    &&& final(self).current == if final(self).game_over {
                        Piece::AI
                    } else {
                        Piece::Player
                    }
                }
            },
    {
        let machine = match self.current {
            Piece::AI => true,
            _ => false,
        };
        if self.ai_move_queued && machine && !self.game_over {
            match best_move(&self.game_state, self.difficulty) {
                Some(col) => {
                    proof {
                        self.game_state.lemma_view();
                    }
                    match play_move(&self.game_state, col, Piece::AI) {
                        Played::ColumnFull => {},
                        Played::Won(new_board) => {
                            self.game_state = new_board;
                            self.game_over = true;
                            self.message = "AI wins!".to_owned();
                        },
                        Played::Draw(new_board) => {
                            self.game_state = new_board;
                            self.game_over = true;
                            self.message = "It's a draw!".to_owned();
                        },
                        Played::Next(new_board, _) => {
                            self.game_state = new_board;
                            self.current = Piece::Player;
                        },
                    }
                },
                None => {
                    self.game_over = true;
                    self.message = "AI has no valid moves!".to_owned();
                },
            }
            self.ai_move_queued = false;
        }
    }
}

} // verus!
