//! The rules for what a player may answer when a game is set up.

use vstd::prelude::*;
use crate::grid::Grid;

verus! {

/// Where the game is played.
#[derive(PartialEq, Eq, Structural, Copy, Clone, Debug)]
pub enum Mode {
    Ui,
    Terminal,
}

pub const MAX_DIFFICULTY: u8 = 10;

pub const MIN_DIFFICULTY: u8 = 1;

/// The rows a board may have.
pub const MAX_ROWS: u8 = 20;

/// Whether `difficulty` is a search depth that a player may choose.
pub fn is_valid_difficulty(difficulty: u8) -> (ok: bool)
    ensures
        ok == (MIN_DIFFICULTY <= difficulty <= MAX_DIFFICULTY),
{
    difficulty >= MIN_DIFFICULTY && difficulty <= MAX_DIFFICULTY
}

/// The most columns that a board of `x` rows may have: one less than the
/// number of columns of `x + 1` slots that fit in 128 slots.
pub fn get_conjugate_value(x: u8) -> (most: u8)
    requires
        x <= 127,
    ensures
        most == 128int / (x + 1) - 1,
{
    proof {
        let d = (x + 1) as int;
        assert(128int / d >= 1) by (nonlinear_arith)
            requires
                0 < d <= 128,
        ;
    }
    (128 / (x + 1)) - 1
}

/// Whether a board may have `rows` rows.
pub fn is_valid_row_count(rows: u8) -> (ok: bool)
    ensures
        ok == (2 <= rows <= MAX_ROWS),
{
    rows >= 2 && rows <= MAX_ROWS
}

/// Whether a board of `rows` rows may have `cols` columns.
pub fn is_valid_column_count(cols: u8, rows: u8) -> (ok: bool)
    requires
        rows <= 127,
    ensures
        ok == (2 <= cols <= 128int / (rows + 1) - 1),
{
    let max_col = get_conjugate_value(rows);
    cols >= 2 && cols <= max_col
}

/// Whether `connect` in a row may win on a board of `rows` rows and `cols`
/// columns.
pub fn is_valid_win_length(connect: u8, rows: u8, cols: u8) -> (ok: bool)
    ensures
        ok == (2 <= connect && connect <= rows && connect <= cols),
{
    let max_win = if rows <= cols {
        rows
    } else {
        cols
    };
    connect >= 2 && connect <= max_win
}

/// Whether a board of these sizes can be built.
pub fn is_valid_geometry(rows: u8, cols: u8, connect: u8) -> (ok: bool)
    ensures
        ok == Grid::geometry_ok(rows as nat, cols as nat, connect as nat),
{
    proof {
        assert(cols * (rows + 1) <= 255 * 256) by (nonlinear_arith)
            requires
                cols <= 255,
                rows <= 255,
        ;
    }
    connect >= 2 && connect <= rows && connect <= cols && (cols as u32) * (rows as u32 + 1) <= 128
}

/// Sizes that pass the three checks of the set-up make a board that can be
/// built.
pub proof fn lemma_accepted_sizes_fit(rows: u8, cols: u8, connect: u8)
    requires
        2 <= rows <= MAX_ROWS,
        2 <= cols <= 128int / (rows + 1) - 1,
        2 <= connect && connect <= rows && connect <= cols,
    ensures
        Grid::geometry_ok(rows as nat, cols as nat, connect as nat),
{
    let stride = rows + 1;
    let most = 128int / stride;
    assert(most * stride <= 128) by (nonlinear_arith)
        requires
            most == 128int / stride,
            stride > 0,
    ;
    assert(cols * stride <= most * stride) by (nonlinear_arith)
        requires
            cols <= most,
            stride > 0,
    ;
}

/// The mode that an answer asks for: `y` for a window, `n` for the
/// terminal, nothing for the window. Any other answer asks for none.
pub fn mode_for_answer(answer: &[u8]) -> (mode: Option<Mode>)
    ensures
        mode == if answer@ == seq![121u8] {
            Some(Mode::Ui)
        } else if answer@ == seq![110u8] {
            Some(Mode::Terminal)
        } else if answer@.len() == 0 {
            Some(Mode::Ui)
        } else {
            None
        },
{
    if answer.len() == 1 && answer[0] == 121 {
        assert(answer@ =~= seq![121u8]);
        Some(Mode::Ui)
    } else if answer.len() == 1 && answer[0] == 110 {
        assert(answer@ =~= seq![110u8]);
        Some(Mode::Terminal)
    } else if answer.len() == 0 {
        Some(Mode::Ui)
    } else {
        None
    }
}

/// Whether the player starts: `j` says yes, `a` gives the machine the first
/// move, nothing says yes. Any other answer says neither.
pub fn player_starts_for_answer(answer: &[u8]) -> (starts: Option<bool>)
    ensures
        starts == if answer@ == seq![106u8] {
            Some(true)
        } else if answer@ == seq![97u8] {
            Some(false)
        } else if answer@.len() == 0 {
            Some(true)
        } else {
            None
        },
{
    if answer.len() == 1 && answer[0] == 106 {
        assert(answer@ =~= seq![106u8]);
        Some(true)
    } else if answer.len() == 1 && answer[0] == 97 {
        assert(answer@ =~= seq![97u8]);
        Some(false)
    } else if answer.len() == 0 {
        Some(true)
    } else {
        None
    }
}

} // verus!
