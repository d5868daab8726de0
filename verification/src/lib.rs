//! N-in-a-row on a bit-packed board, with a depth-limited alpha-beta opponent.
//!
//! The board keeps one 128-bit mask per side. Cell `(row, col)` lives at slot
//! `col * (rows + 1) + row`; the slot above the top row of every column is
//! never occupied, so a shifted mask cannot join the top of one column to the
//! bottom of the next.

pub mod bits;
pub mod runs;
pub mod grid;
pub mod lines;
pub mod bitboard;
pub mod heuristic;
pub mod minimax;
pub mod game_tree;
pub mod text;
pub mod turn;
pub mod terminal;
pub mod ui;
pub mod board;
pub mod game;
