//! A game on a pair of bare masks, with a fixed stride of seven slots per
//! column.

use vstd::prelude::*;
use crate::bits::{bit, lemma_bit_single, lemma_mask_meets_slot};
use crate::board::Board;
use crate::text::{decimal, push_decimal, rule};
use vstd::string::StringExecFns;

verus! {

/// A game: the size as columns and rows, the masks, and the difficulty.
pub struct Game {
    pub size: (usize, usize),
    pub board: Board,
    pub difficulty: u8,
}

/// The character for a slot of two masks: `X` where the first mask holds
/// it, else `O` where the second does, else a dot.
pub open spec fn symbol(first: u128, second: u128, j: int) -> char {
    if bit(first, j) {
        'X'
    } else if bit(second, j) {
        'O'
    } else {
        '.'
    }
}

/// The first `n` cells of row `row`, each followed by two blanks.
pub open spec fn game_row_text(first: u128, second: u128, row: int, n: nat) -> Seq<char>
    decreases n,
{
    if n == 0 {
        Seq::empty()
    } else {
        game_row_text(first, second, row, (n - 1) as nat) + seq![
            symbol(first, second, (n - 1) * 7 + row),
            ' ',
            ' ',
        ]
    }
}

/// The top `n` of `rows` rows, highest first, each ended by a line feed.
pub open spec fn game_rows_text(first: u128, second: u128, cols: nat, rows: nat, n: nat) -> Seq<
    char,
>
    decreases n,
{
    if n == 0 {
        Seq::empty()
    } else {
        game_rows_text(first, second, cols, rows, (n - 1) as nat) + game_row_text(
            first,
            second,
            rows - n,
            cols,
        ) + seq!['\n']
    }
}

/// The numbers of the first `n` columns, each padded with blanks to three
/// characters while it has one digit, and followed by one blank after that.
pub open spec fn game_labels(n: nat) -> Seq<char>
    decreases n,
{
    if n == 0 {
        Seq::empty()
    } else if n - 1 < 10 {
        game_labels((n - 1) as nat) + decimal((n - 1) as nat) + seq![' ', ' ']
    } else {
        game_labels((n - 1) as nat) + decimal((n - 1) as nat) + seq![' ']
    }
}

impl Game {
    /// Every cell of the game has a slot in the masks, and there is a
    /// column to put a rule under.
    pub open spec fn fits(&self) -> bool {
        &&& 1 <= self.size.0
        &&& self.size.0 * 3 <= usize::MAX
        &&& self.size.1 > 0 ==> (self.size.0 - 1) * 7 + (self.size.1 - 1) < 128
    }

    /// The text of the game.
    pub open spec fn text(&self) -> Seq<char> {
        game_rows_text(
            self.board.player_boards[0],
            self.board.player_boards[1],
            self.size.0 as nat,
            self.size.1 as nat,
            self.size.1 as nat,
        ) + rule((self.size.0 * 3 - 1) as nat) + seq!['\n'] + game_labels(self.size.0 as nat)
    }

    /// The game as text: the rows from the top down, a rule, and the
    /// column numbers.
    pub fn to_text(&self) -> (text: String)
        requires
            self.fits(),
        ensures
            text@ == self.text(),
    {
        proof {
            reveal_strlit("\n");
            reveal_strlit("-");
            reveal_strlit(" ");
            reveal_strlit("  ");
            reveal_strlit("X  ");
            reveal_strlit("O  ");
            reveal_strlit(".  ");
        }
        let ghost first = self.board.player_boards[0];
        let ghost second = self.board.player_boards[1];
        let cols = self.size.0;
        let rows = self.size.1;
        let mut text = String::new();
        let mut done: usize = 0;
        while done < rows
            invariant
                self.fits(),
                cols == self.size.0,
                rows == self.size.1,
                first == self.board.player_boards[0],
                second == self.board.player_boards[1],
                done <= rows,
                "\n"@ == seq!['\n'],
                "X  "@ == seq!['X', ' ', ' '],
                "O  "@ == seq!['O', ' ', ' '],
                ".  "@ == seq!['.', ' ', ' '],
                text@ == game_rows_text(first, second, cols as nat, rows as nat, done as nat),
            decreases rows - done,
        {
            let row: usize = rows - 1 - done;
            let ghost start = text@;
            let mut col: usize = 0;
            while col < cols
                invariant
                    self.fits(),
                    cols == self.size.0,
                    rows == self.size.1,
                    first == self.board.player_boards[0],
                    second == self.board.player_boards[1],
                    row < rows,
                    col <= cols,
                    "X  "@ == seq!['X', ' ', ' '],
                    "O  "@ == seq!['O', ' ', ' '],
                    ".  "@ == seq!['.', ' ', ' '],
                    text@ == start + game_row_text(first, second, row as int, col as nat),
                decreases cols - col,
            {
                let ch = self.cell_symbol(col, row);
                if ch == 'X' {
                    text.append("X  ");
                } else if ch == 'O' {
                    text.append("O  ");
                } else {
                    text.append(".  ");
                }
                col += 1;
                assert(text@ =~= start + game_row_text(first, second, row as int, col as nat));
            }
            text.append("\n");
            done += 1;
            assert(text@ =~= game_rows_text(first, second, cols as nat, rows as nat, done as nat));
        }
        let ghost body = text@;
        let width: usize = cols * 3 - 1;
        let mut n: usize = 0;
        while n < width
            invariant
                n <= width,
                "-"@ == seq!['-'],
                text@ == body + rule(n as nat),
            decreases width - n,
        {
            text.append("-");
            n += 1;
            assert(text@ =~= body + rule(n as nat));
        }
        text.append("\n");
        let ghost ruled = text@;
        let mut i: usize = 0;
        while i < cols
            invariant
                i <= cols,
                " "@ == seq![' '],
                "  "@ == seq![' ', ' '],
                text@ == ruled + game_labels(i as nat),
            decreases cols - i,
        {
            push_decimal(&mut text, i);
            if i < 10 {
                text.append("  ");
            } else {
                text.append(" ");
            }
            i += 1;
            assert(text@ =~= ruled + game_labels(i as nat));
        }
        assert(text@ =~= self.text());
        text
    }

    /// A game of the given size with empty masks and difficulty zero.
    pub fn new(size: (usize, usize)) -> (g: Self)
        ensures
            g.size == size,
            g.difficulty == 0,
            g.board.player_boards[0] == 0,
            g.board.player_boards[1] == 0,
    {
        let board = Board::new();
        Game { size, board, difficulty: 0 }
    }

    /// The character that stands for the cell at `row` of column `col`.
    pub fn cell_symbol(&self, col: usize, row: usize) -> (ch: char)
        requires
            col * 7 + row < 128,
        ensures
            ch == symbol(self.board.player_boards[0], self.board.player_boards[1], col * 7 + row),
    {
        let bit_index: usize = col * 7 + row;
        let mask: u128 = 1u128 << bit_index;
        proof {
            assert(1u128 << bit_index == 1u128 << (bit_index as u128)) by (bit_vector);
            assert forall|i: int| bit(mask, i) <==> i == bit_index by {
                lemma_bit_single(bit_index as u128, i);
            }
            lemma_mask_meets_slot(self.board.player_boards[0], mask, bit_index as int);
            lemma_mask_meets_slot(self.board.player_boards[1], mask, bit_index as int);
        }
        if self.board.player_boards[0] & mask != 0 {
            'X'
        } else if self.board.player_boards[1] & mask != 0 {
            'O'
        } else {
            '.'
        }
    }
}

} // verus!
