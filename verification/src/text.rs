//! The board as text: the rows from the top down, a rule, and the column
//! numbers.

use vstd::prelude::*;
use vstd::string::StringExecFns;
use crate::bitboard::{BitBoard, Piece};
use crate::grid::Grid;

verus! {

/// The character that stands for a piece.
pub open spec fn symbol_of(p: Piece) -> char {
    match p {
        Piece::Empty => '.',
        Piece::Player => 'X',
        Piece::AI => 'O',
    }
}

/// The character of a decimal digit.
pub open spec fn digit_char(d: int) -> char {
    if d == 0 {
        '0'
    } else if d == 1 {
        '1'
    } else if d == 2 {
        '2'
    } else if d == 3 {
        '3'
    } else if d == 4 {
        '4'
    } else if d == 5 {
        '5'
    } else if d == 6 {
        '6'
    } else if d == 7 {
        '7'
    } else if d == 8 {
        '8'
    } else {
        '9'
    }
}

/// A number in decimal digits.
pub open spec fn decimal(n: nat) -> Seq<char>
    decreases n,
{
    if n < 10 {
        seq![digit_char(n as int)]
    } else {
        decimal(n / 10) + seq![digit_char((n % 10) as int)]
    }
}

/// The first `n` cells of row `r`, each between two blanks.
pub open spec fn row_text(g: Grid, r: int, n: nat) -> Seq<char>
    decreases n,
{
    if n == 0 {
        Seq::empty()
    } else {
        row_text(g, r, (n - 1) as nat) + seq![' ', symbol_of(g.cell(r, n - 1)), ' ']
    }
}

/// The top `n` rows, highest first, each ended by a line feed.
pub open spec fn rows_text(g: Grid, n: nat) -> Seq<char>
    decreases n,
{
    if n == 0 {
        Seq::empty()
    } else {
        rows_text(g, (n - 1) as nat) + row_text(g, g.rows - n, g.cols) + seq!['\n']
    }
}

/// A rule of `n` dashes.
pub open spec fn rule(n: nat) -> Seq<char> {
    Seq::new(n, |i: int| '-')
}

/// The numbers of the first `n` columns, each between two blanks.
pub open spec fn labels(n: nat) -> Seq<char>
    decreases n,
{
    if n == 0 {
        Seq::empty()
    } else {
        labels((n - 1) as nat) + seq![' '] + decimal((n - 1) as nat) + seq![' ']
    }
}

/// The whole text of a position.
pub open spec fn board_text(g: Grid) -> Seq<char> {
    seq!['\n'] + rows_text(g, g.rows) + rule(3 * g.cols) + seq!['\n'] + labels(g.cols) + seq!['\n']
}

fn digit_str(d: u8) -> (s: &'static str)
    requires
        d < 10,
    ensures
        s@ == seq![digit_char(d as int)],
{
    proof {
        reveal_strlit("0");
        reveal_strlit("1");
        reveal_strlit("2");
        reveal_strlit("3");
        reveal_strlit("4");
        reveal_strlit("5");
        reveal_strlit("6");
        reveal_strlit("7");
        reveal_strlit("8");
        reveal_strlit("9");
    }
    let s = if d == 0 {
        "0"
    } else if d == 1 {
        "1"
    } else if d == 2 {
        "2"
    } else if d == 3 {
        "3"
    } else if d == 4 {
        "4"
    } else if d == 5 {
        "5"
    } else if d == 6 {
        "6"
    } else if d == 7 {
        "7"
    } else if d == 8 {
        "8"
    } else {
        "9"
    };
    assert(s@ =~= seq![digit_char(d as int)]);
    s
}

fn symbol_str(p: Piece) -> (s: &'static str)
    ensures
        s@ == seq![' ', symbol_of(p), ' '],
{
    proof {
        reveal_strlit(" . ");
        reveal_strlit(" X ");
        reveal_strlit(" O ");
    }
    let s = match p {
        Piece::Empty => " . ",
        Piece::Player => " X ",
        Piece::AI => " O ",
    };
    assert(s@ =~= seq![' ', symbol_of(p), ' ']);
    s
}

/// Appends `n` in decimal digits.
pub fn push_decimal(text: &mut String, n: usize)
    ensures
        final(text)@ == old(text)@ + decimal(n as nat),
    decreases n,
{
    if n >= 10 {
        push_decimal(text, n / 10);
    }
    text.append(digit_str((n % 10) as u8));
    assert(final(text)@ =~= old(text)@ + decimal(n as nat));
}

impl BitBoard {
    /// The board as text.
    pub fn to_text(&self) -> (text: String)
        requires
            self.wf(),
        ensures
            text@ == board_text(self@),
    {
        proof {
            reveal_strlit("\n");
            reveal_strlit("-");
            reveal_strlit(" ");
        }
        let mut text = String::new();
        text.append("\n");
        let mut done: u8 = 0;
        while done < self.rows
            invariant
                self.wf(),
                done <= self.rows,
                "\n"@ == seq!['\n'],
                text@ == seq!['\n'] + rows_text(self@, done as nat),
            decreases self.rows - done,
        {
            let r: u8 = self.rows - 1 - done;
            let ghost start = text@;
            let mut c: u8 = 0;
            while c < self.cols
                invariant
                    self.wf(),
                    c <= self.cols,
                    r < self.rows,
                    text@ == start + row_text(self@, r as int, c as nat),
                decreases self.cols - c,
            {
                let piece = self.get_piece(r, c);
                text.append(symbol_str(piece));
                c += 1;
                assert(text@ =~= start + row_text(self@, r as int, c as nat));
            }
            text.append("\n");
            done += 1;
            assert(text@ =~= seq!['\n'] + rows_text(self@, done as nat));
        }
        let ghost body = text@;
        let mut n: usize = 0;
        let width: usize = (self.cols as usize) * 3;
        while n < width
            invariant
                n <= width,
                "-"@ == seq!['-'],
                text@ == body + rule(n as nat),
            decreases width - n,
        {
            text.append("-");
            n += 1;
            assert(text@ =~= body + rule(n as nat));
        }
        text.append("\n");
        let ghost ruled = text@;
        let mut c: u8 = 0;
        while c < self.cols
            invariant
                c <= self.cols,
                " "@ == seq![' '],
                text@ == ruled + labels(c as nat),
            decreases self.cols - c,
        {
            text.append(" ");
            push_decimal(&mut text, c as usize);
            text.append(" ");
            c += 1;
            assert(text@ =~= ruled + labels(c as nat));
        }
        text.append("\n");
        assert(text@ =~= board_text(self@));
        text
    }
}

} // verus!
