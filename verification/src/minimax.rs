//! Depth-limited search with alpha-beta pruning.
//!
//! The machine maximises, the player minimises. Columns are tried from the
//! left, and a later column replaces the best one only with a strictly
//! better score, so of equal columns the leftmost is chosen.

use vstd::prelude::*;
use crate::bitboard::{BitBoard, Piece};
use crate::grid::{Grid, lemma_geometry_bounds};
use crate::game_tree::{full_search, lemma_full_window, lemma_search_bound};
use crate::heuristic::{evaluate, evaluate_heuristic};

verus! {

/// The score of a position that one side has won.
pub const WIN: i32 = 100_000_000;

/// The side that moves at a node.
pub open spec fn mover(maximizing: bool) -> Piece {
    if maximizing {
        Piece::AI
    } else {
        Piece::Player
    }
}

/// The score that any score of a child beats.
pub open spec fn worst(maximizing: bool) -> int {
    if maximizing {
        i32::MIN as int
    } else {
        i32::MAX as int
    }
}

/// The score of a decided position: a win of the machine, a win of the
/// player, or a full board, looked for in this order.
pub open spec fn decided(g: Grid) -> Option<int> {
    if g.wins(Piece::AI) {
        Some(WIN as int)
    } else if g.wins(Piece::Player) {
        Some(-WIN as int)
    } else if g.full() {
        Some(0int)
    } else {
        None
    }
}

/// What the search returns at a node: the chosen column, if any, and the
/// score.
pub open spec fn search(g: Grid, depth: nat, alpha: int, beta: int, maximizing: bool) -> (
    Option<int>,
    int,
)
    decreases depth, g.cols + 1,
{
    if decided(g) is Some {
        (None, decided(g).unwrap())
    } else if depth == 0 {
        (None, evaluate(g, mover(maximizing)))
    } else {
        scan(g, depth, alpha, beta, maximizing, 0, None, worst(maximizing))
    }
}

/// What the search returns at a node once the columns before `c` are done,
/// with `best_col` and `best` the best found so far and the window narrowed
/// to `alpha` and `beta`.
pub open spec fn scan(
    g: Grid,
    depth: nat,
    alpha: int,
    beta: int,
    maximizing: bool,
    c: nat,
    best_col: Option<int>,
    best: int,
) -> (Option<int>, int)
    decreases depth, g.cols - c,
{
    if depth == 0 || c >= g.cols {
        (best_col, best)
    } else if !g.can_drop(c as int) {
        scan(g, depth, alpha, beta, maximizing, c + 1, best_col, best)
    } else {
        let s = search(
            g.drop(c as int, mover(maximizing)),
            (depth - 1) as nat,
            alpha,
            beta,
            !maximizing,
        ).1;
        if maximizing {
            let col = if s > best {
                Some(c as int)
            } else {
                best_col
            };
            let b = if s > best {
                s
            } else {
                best
            };
            let a = if s > alpha {
                s
            } else {
                alpha
            };
            if a >= beta {
                (col, b)
            } else {
                scan(g, depth, a, beta, maximizing, c + 1, col, b)
            }
        } else {
            let col = if s < best {
                Some(c as int)
            } else {
                best_col
            };
            let b = if s < best {
                s
            } else {
                best
            };
            let bt = if s < beta {
                s
            } else {
                beta
            };
            if alpha >= bt {
                (col, b)
            } else {
                scan(g, depth, alpha, bt, maximizing, c + 1, col, b)
            }
        }
    }
}

/// A column of the board as a number.
pub open spec fn column(c: Option<u8>) -> Option<int> {
    match c {
        Some(c) => Some(c as int),
        None => None,
    }
}

/// The columns from `c` up to `to` take no piece, so the scan passes them.
pub proof fn lemma_scan_skips(
    g: Grid,
    depth: nat,
    alpha: int,
    beta: int,
    maximizing: bool,
    c: nat,
    to: nat,
    best_col: Option<int>,
    best: int,
)
    requires
        c <= to <= g.cols,
        forall|x: int| c <= x < to ==> !g.can_drop(x),
    ensures
        scan(g, depth, alpha, beta, maximizing, c, best_col, best) == scan(
            g,
            depth,
            alpha,
            beta,
            maximizing,
            to,
            best_col,
            best,
        ),
    decreases to - c,
{
    if c < to {
        lemma_scan_skips(g, depth, alpha, beta, maximizing, c + 1, to, best_col, best);
    }
}

/// Between two neighbours of a list of the playable columns, and before the
/// first and after the last, no column takes a piece.
pub proof fn lemma_gap(g: Grid, moves: Seq<u8>, i: int, x: int)
    requires
        g.cols <= 255,
        g.lists_moves(moves),
        0 <= i <= moves.len(),
        i > 0 ==> moves[i - 1] < x,
        i < moves.len() ==> x < moves[i],
    ensures
        !g.can_drop(x),
{
    if g.can_drop(x) {
        assert(moves.contains(x as u8));
        let k = choose|k: int| 0 <= k < moves.len() && moves[k] == x as u8;
        if k < i {
            if k < i - 1 {
                assert(moves[k] < moves[i - 1]);
            }
        } else {
            if i < k {
                assert(moves[i] < moves[k]);
            }
        }
    }
}

/// The first `i` columns of `moves` are done, and `low` is the column after
/// the last of them.
pub open spec fn done_before(moves: Seq<u8>, i: int, low: nat) -> bool {
    &&& 0 <= i <= moves.len()
    &&& i == 0 ==> low == 0
    &&& i > 0 ==> low == moves[i - 1] + 1
}

/// Searches `depth` plies below the position and returns the column that is
/// best for the side to move, and its score. A position that is decided, or
/// a depth of zero, has no column.
pub fn minimax(board: &BitBoard, depth: u8, alpha: i32, beta: i32, is_maximizing: bool) -> (found: (
    Option<u8>,
    i32,
))
    requires
        board.wf(),
    ensures
        (column(found.0), found.1 as int) == search(
            board@,
            depth as nat,
            alpha as int,
            beta as int,
            is_maximizing,
        ),
        found.0 is Some <==> depth > 0 && decided(board@) is None,
        found.0 matches Some(c) ==> board@.can_drop(c as int),
        -WIN <= found.1 <= WIN,
    decreases depth,
{
    proof {
        board.lemma_view();
        lemma_search_bound(board@, depth as nat, alpha as int, beta as int, is_maximizing);
    }
    let player = if is_maximizing {
        Piece::AI
    } else {
        Piece::Player
    };
    if board.check_win(Piece::AI) {
        return (None, WIN);
    } else if board.check_win(Piece::Player) {
        return (None, -WIN);
    } else if board.is_full() {
        return (None, 0);
    }
    if depth == 0 {
        return (None, evaluate_heuristic(board, player));
    }
    let valid_moves = board.get_valid_locations();
    let ghost g = board@;
    let ghost goal = search(g, depth as nat, alpha as int, beta as int, is_maximizing);
    proof {
        board.lemma_view();
        lemma_geometry_bounds(g.rows, g.cols, g.connect);
    }
    let mut best_col: Option<u8> = None;
    let mut i: usize = 0;
    if is_maximizing {
        let mut best_score: i32 = i32::MIN;
        let mut alpha: i32 = alpha;
        let ghost mut low: nat = 0;
        while i < valid_moves.len()
            invariant_except_break
                board.wf(),
                g == board@,
                g.cols == board.cols,
                g.lists_moves(valid_moves@),
                depth > 0,
                done_before(valid_moves@, i as int, low),
                scan(
                    g,
                    depth as nat,
                    alpha as int,
                    beta as int,
                    true,
                    low,
                    column(best_col),
                    best_score as int,
                ) == goal,
            ensures
                (column(best_col), best_score as int) == goal || (i == valid_moves.len()
                    && done_before(valid_moves@, i as int, low) && scan(
                    g,
                    depth as nat,
                    alpha as int,
                    beta as int,
                    true,
                    low,
                    column(best_col),
                    best_score as int,
                ) == goal),
            decreases valid_moves.len() - i,
        {
            let col = valid_moves[i];
            proof {
                assert(g.can_drop(valid_moves@[i as int] as int));
                assert forall|x: int| low <= x < col implies !g.can_drop(x) by {
                    lemma_gap(g, valid_moves@, i as int, x);
                }
                lemma_scan_skips(
                    g,
                    depth as nat,
                    alpha as int,
                    beta as int,
                    true,
                    low,
                    col as nat,
                    column(best_col),
                    best_score as int,
                );
            }
            let new_board = board.drop_piece(col, Piece::AI).unwrap();
            let (_, score) = minimax(&new_board, depth - 1, alpha, beta, false);
            if score > best_score {
                best_score = score;
                best_col = Some(col);
            }
            if score > alpha {
                alpha = score;
            }
            if alpha >= beta {
                break ;
            }
            proof {
                low = (col + 1) as nat;
            }
            i += 1;
        }
        proof {
            if (column(best_col), best_score as int) != goal {
                assert forall|x: int| low <= x < g.cols implies !g.can_drop(x) by {
                    lemma_gap(g, valid_moves@, i as int, x);
                }
                lemma_scan_skips(
                    g,
                    depth as nat,
                    alpha as int,
                    beta as int,
                    true,
                    low,
                    g.cols,
                    column(best_col),
                    best_score as int,
                );
            }
        }
        (best_col, best_score)
    } else {
        let mut best_score: i32 = i32::MAX;
        let mut beta: i32 = beta;
        let ghost mut low: nat = 0;
        while i < valid_moves.len()
            invariant_except_break
                board.wf(),
                g == board@,
                g.cols == board.cols,
                g.lists_moves(valid_moves@),
                depth > 0,
                done_before(valid_moves@, i as int, low),
                scan(
                    g,
                    depth as nat,
                    alpha as int,
                    beta as int,
                    false,
                    low,
                    column(best_col),
                    best_score as int,
                ) == goal,
            ensures
                (column(best_col), best_score as int) == goal || (i == valid_moves.len()
                    && done_before(valid_moves@, i as int, low) && scan(
                    g,
                    depth as nat,
                    alpha as int,
                    beta as int,
                    false,
                    low,
                    column(best_col),
                    best_score as int,
                ) == goal),
            decreases valid_moves.len() - i,
        {
            let col = valid_moves[i];
            proof {
                assert(g.can_drop(valid_moves@[i as int] as int));
                assert forall|x: int| low <= x < col implies !g.can_drop(x) by {
                    lemma_gap(g, valid_moves@, i as int, x);
                }
                lemma_scan_skips(
                    g,
                    depth as nat,
                    alpha as int,
                    beta as int,
                    false,
                    low,
                    col as nat,
                    column(best_col),
                    best_score as int,
                );
            }
            let new_board = board.drop_piece(col, Piece::Player).unwrap();
            let (_, score) = minimax(&new_board, depth - 1, alpha, beta, true);
            if score < best_score {
                best_score = score;
                best_col = Some(col);
            }
            if score < beta {
                beta = score;
            }
            if alpha >= beta {
                break ;
            }
            proof {
                low = (col + 1) as nat;
            }
            i += 1;
        }
        proof {
            if (column(best_col), best_score as int) != goal {
                assert forall|x: int| low <= x < g.cols implies !g.can_drop(x) by {
                    lemma_gap(g, valid_moves@, i as int, x);
                }
                lemma_scan_skips(
                    g,
                    depth as nat,
                    alpha as int,
                    beta as int,
                    false,
                    low,
                    g.cols,
                    column(best_col),
                    best_score as int,
                );
            }
        }
        (best_col, best_score)
    }
}

/// The column that the machine plays after a search of `depth` plies: the
/// leftmost of the columns with the best full score. There is none at depth
/// zero, nor in a position that is won or full.
pub fn best_move(board: &BitBoard, depth: u8) -> (col: Option<u8>)
    requires
        board.wf(),
    ensures
        column(col) == full_search(board@, depth as nat, true).0,
        col is None <==> depth == 0 || decided(board@) is Some,
        col matches Some(c) ==> board@.can_drop(c as int),
{
    proof {
        board.lemma_view();
        lemma_full_window(board@, depth as nat, true);
        lemma_search_bound(board@, depth as nat, i32::MIN as int, i32::MAX as int, true);
    }
    minimax(board, depth, i32::MIN, i32::MAX, true).0
}

} // verus!
