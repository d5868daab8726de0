//! The search without pruning, and what pruning keeps of it.
//!
//! [`full_search`] visits every column of every node. The pruned search
//! returns the same column and score when it starts with the widest window,
//! and with a narrower window a score on the same side of the window as the
//! full one.

use vstd::prelude::*;
use crate::bitboard::Piece;
use crate::grid::{Grid, lemma_drop, lemma_drop_lines, lemma_not_full};
use crate::heuristic::{evaluate, lemma_evaluate_bound};
use crate::minimax::{WIN, decided, mover, scan, search, worst};

verus! {

/// What the search returns at a node when no column is ever skipped: the
/// leftmost column of the best score, and that score.
pub open spec fn full_search(g: Grid, depth: nat, maximizing: bool) -> (Option<int>, int)
    decreases depth, g.cols + 1,
{
    if decided(g) is Some {
        (None, decided(g).unwrap())
    } else if depth == 0 {
        (None, evaluate(g, mover(maximizing)))
    } else {
        full_scan(g, depth, maximizing, 0, None, worst(maximizing))
    }
}

/// [`full_search`] once the columns before `c` are done, with `best_col` and
/// `best` the best found so far.
pub open spec fn full_scan(
    g: Grid,
    depth: nat,
    maximizing: bool,
    c: nat,
    best_col: Option<int>,
    best: int,
) -> (Option<int>, int)
    decreases depth, g.cols - c,
{
    if depth == 0 || c >= g.cols {
        (best_col, best)
    } else if !g.can_drop(c as int) {
        full_scan(g, depth, maximizing, c + 1, best_col, best)
    } else {
        let v = full_search(g.drop(c as int, mover(maximizing)), (depth - 1) as nat, !maximizing).1;
        if (maximizing && v > best) || (!maximizing && v < best) {
            full_scan(g, depth, maximizing, c + 1, Some(c as int), v)
        } else {
            full_scan(g, depth, maximizing, c + 1, best_col, best)
        }
    }
}

/// The score of a node under full search.
pub open spec fn value(g: Grid, depth: nat, maximizing: bool) -> int {
    full_search(g, depth, maximizing).1
}

/// A score lies between a lost and a won position.
pub open spec fn is_score(s: int) -> bool {
    -WIN <= s <= WIN
}

/// At depth zero a position that is not decided gets its heuristic score,
/// whatever the window, and no column.
pub proof fn lemma_depth_zero(g: Grid, alpha: int, beta: int, maximizing: bool)
    requires
        decided(g) is None,
    ensures
        search(g, 0, alpha, beta, maximizing) == (None::<int>, evaluate(g, mover(maximizing))),
{
}

/// The search returns a score between loss and win. It returns a column
/// exactly when the position is not decided and the depth is not zero, and
/// that column takes a piece.
pub proof fn lemma_search_bound(g: Grid, depth: nat, alpha: int, beta: int, maximizing: bool)
    requires
        g.wf(),
    ensures
        is_score(search(g, depth, alpha, beta, maximizing).1),
        search(g, depth, alpha, beta, maximizing).0 is Some <==> depth > 0 && decided(g) is None,
        search(g, depth, alpha, beta, maximizing).0 matches Some(x) ==> g.can_drop(x),
    decreases depth, g.cols + 1,
{
    if decided(g) is Some {
    } else if depth == 0 {
        lemma_evaluate_bound(g, mover(maximizing));
    } else {
        let x = lemma_not_full(g);
        lemma_scan_bound(g, depth, alpha, beta, maximizing, 0, None, worst(maximizing));
    }
}

/// A scan either keeps what it started with, and then no column from `c` on
/// took a piece if it started with the worst score, or it returns a score
/// between loss and win with a column that takes a piece.
pub proof fn lemma_scan_bound(
    g: Grid,
    depth: nat,
    alpha: int,
    beta: int,
    maximizing: bool,
    c: nat,
    best_col: Option<int>,
    best: int,
)
    requires
        g.wf(),
        depth > 0,
    ensures
        ({
            let r = scan(g, depth, alpha, beta, maximizing, c, best_col, best);
            ||| r == (best_col, best) && (best == worst(maximizing) ==> forall|x: int|
                c <= x < g.cols ==> !g.can_drop(x))
            ||| is_score(r.1) && r.0 is Some && g.can_drop(r.0.unwrap())
        }),
    decreases depth, g.cols - c,
{
    if c >= g.cols {
    } else if !g.can_drop(c as int) {
        lemma_scan_bound(g, depth, alpha, beta, maximizing, c + 1, best_col, best);
    } else {
        let child = g.drop(c as int, mover(maximizing));
        lemma_drop(g, c as int, mover(maximizing));
        lemma_search_bound(child, (depth - 1) as nat, alpha, beta, !maximizing);
        let s = search(child, (depth - 1) as nat, alpha, beta, !maximizing).1;
        if maximizing {
            let col = if s > best {
                Some(c as int)
            } else {
                best_col
            };
            let b = if s > best {
                s
            } else {
                best
            };
            let a = if s > alpha {
                s
            } else {
                alpha
            };
            if a < beta {
                lemma_scan_bound(g, depth, a, beta, maximizing, c + 1, col, b);
            }
        } else {
            let col = if s < best {
                Some(c as int)
            } else {
                best_col
            };
            let b = if s < best {
                s
            } else {
                best
            };
            let bt = if s < beta {
                s
            } else {
                beta
            };
            if alpha < bt {
                lemma_scan_bound(g, depth, alpha, bt, maximizing, c + 1, col, b);
            }
        }
    }
}

/// How a score `s` found with the window from `alpha` to `beta` stands to
/// the full score `v`: at or below the window it is an upper bound, at or
/// above it a lower bound, and inside it the two are equal.
pub open spec fn within_window(s: int, v: int, alpha: int, beta: int) -> bool {
    &&& s <= alpha ==> v <= s
    &&& s >= beta ==> v >= s
    &&& alpha < s < beta ==> v == s
}

/// The greater of two scores.
pub open spec fn higher(a: int, b: int) -> int {
    if a >= b {
        a
    } else {
        b
    }
}

/// The smaller of two scores.
pub open spec fn lower(a: int, b: int) -> int {
    if a <= b {
        a
    } else {
        b
    }
}

/// A full scan never ends worse than it stood.
pub proof fn lemma_full_scan_improves(
    g: Grid,
    depth: nat,
    maximizing: bool,
    c: nat,
    best_col: Option<int>,
    best: int,
)
    ensures
        maximizing ==> full_scan(g, depth, maximizing, c, best_col, best).1 >= best,
        !maximizing ==> full_scan(g, depth, maximizing, c, best_col, best).1 <= best,
    decreases g.cols - c,
{
    if depth == 0 || c >= g.cols {
    } else if !g.can_drop(c as int) {
        lemma_full_scan_improves(g, depth, maximizing, c + 1, best_col, best);
    } else {
        let v = value(g.drop(c as int, mover(maximizing)), (depth - 1) as nat, !maximizing);
        if (maximizing && v > best) || (!maximizing && v < best) {
            lemma_full_scan_improves(g, depth, maximizing, c + 1, Some(c as int), v);
        } else {
            lemma_full_scan_improves(g, depth, maximizing, c + 1, best_col, best);
        }
    }
}

/// Pruning is sound: with any window, the score that the search returns
/// stands to the full score as [`within_window`] says.
pub proof fn lemma_window(g: Grid, depth: nat, alpha: int, beta: int, maximizing: bool)
    requires
        g.wf(),
        i32::MIN <= alpha < beta <= i32::MAX,
    ensures
        within_window(
            search(g, depth, alpha, beta, maximizing).1,
            value(g, depth, maximizing),
            alpha,
            beta,
        ),
    decreases depth, g.cols + 1,
{
    if decided(g) is None && depth > 0 {
        if maximizing {
            lemma_scan_window_max(g, depth, alpha, beta, 0, None, worst(true), None, worst(true));
        } else {
            lemma_scan_window_min(
                g,
                depth,
                alpha,
                beta,
                0,
                None,
                worst(false),
                None,
                worst(false),
            );
        }
    }
}

proof fn lemma_scan_window_max(
    g: Grid,
    depth: nat,
    alpha: int,
    beta: int,
    c: nat,
    best_col: Option<int>,
    best: int,
    full_col: Option<int>,
    full_best: int,
)
    requires
        g.wf(),
        depth > 0,
        i32::MIN <= alpha < beta <= i32::MAX,
        i32::MIN <= best < beta,
        best <= alpha ==> full_best <= best,
        best > alpha ==> full_best == best,
    ensures
        within_window(
            scan(g, depth, higher(alpha, best), beta, true, c, best_col, best).1,
            full_scan(g, depth, true, c, full_col, full_best).1,
            alpha,
            beta,
        ),
    decreases depth, g.cols - c,
{
    let a = higher(alpha, best);
    if c >= g.cols {
    } else if !g.can_drop(c as int) {
        lemma_scan_window_max(g, depth, alpha, beta, c + 1, best_col, best, full_col, full_best);
    } else {
        let child = g.drop(c as int, Piece::AI);
        lemma_drop(g, c as int, Piece::AI);
        lemma_window(child, (depth - 1) as nat, a, beta, false);
        let s = search(child, (depth - 1) as nat, a, beta, false).1;
        let v = value(child, (depth - 1) as nat, false);
        let col = if s > best {
            Some(c as int)
        } else {
            best_col
        };
        let b = higher(best, s);
        let fc = if v > full_best {
            Some(c as int)
        } else {
            full_col
        };
        let fb = higher(full_best, v);
        assert(full_scan(g, depth, true, c, full_col, full_best) == full_scan(
            g,
            depth,
            true,
            c + 1,
            fc,
            fb,
        ));
        if higher(a, s) >= beta {
            lemma_full_scan_improves(g, depth, true, c + 1, fc, fb);
        } else {
            assert(higher(a, s) == higher(alpha, b));
            lemma_scan_window_max(g, depth, alpha, beta, c + 1, col, b, fc, fb);
        }
    }
}

proof fn lemma_scan_window_min(
    g: Grid,
    depth: nat,
    alpha: int,
    beta: int,
    c: nat,
    best_col: Option<int>,
    best: int,
    full_col: Option<int>,
    full_best: int,
)
    requires
        g.wf(),
        depth > 0,
        i32::MIN <= alpha < beta <= i32::MAX,
        alpha < best <= i32::MAX,
        best >= beta ==> full_best >= best,
        best < beta ==> full_best == best,
    ensures
        within_window(
            scan(g, depth, alpha, lower(beta, best), false, c, best_col, best).1,
            full_scan(g, depth, false, c, full_col, full_best).1,
            alpha,
            beta,
        ),
    decreases depth, g.cols - c,
{
    let bt = lower(beta, best);
    if c >= g.cols {
    } else if !g.can_drop(c as int) {
        lemma_scan_window_min(g, depth, alpha, beta, c + 1, best_col, best, full_col, full_best);
    } else {
        let child = g.drop(c as int, Piece::Player);
        lemma_drop(g, c as int, Piece::Player);
        lemma_window(child, (depth - 1) as nat, alpha, bt, true);
        let s = search(child, (depth - 1) as nat, alpha, bt, true).1;
        let v = value(child, (depth - 1) as nat, true);
        let col = if s < best {
            Some(c as int)
        } else {
            best_col
        };
        let b = lower(best, s);
        let fc = if v < full_best {
            Some(c as int)
        } else {
            full_col
        };
        let fb = lower(full_best, v);
        assert(full_scan(g, depth, false, c, full_col, full_best) == full_scan(
            g,
            depth,
            false,
            c + 1,
            fc,
            fb,
        ));
        if alpha >= lower(bt, s) {
            lemma_full_scan_improves(g, depth, false, c + 1, fc, fb);
        } else {
            assert(lower(bt, s) == lower(beta, b));
            lemma_scan_window_min(g, depth, alpha, beta, c + 1, col, b, fc, fb);
        }
    }
}

/// Pruned and full search agree: started with the widest window, the search
/// returns the column and the score of the full search.
pub proof fn lemma_full_window(g: Grid, depth: nat, maximizing: bool)
    requires
        g.wf(),
    ensures
        search(g, depth, i32::MIN as int, i32::MAX as int, maximizing) == full_search(
            g,
            depth,
            maximizing,
        ),
{
    if decided(g) is None && depth > 0 {
        lemma_scan_widest(g, depth, maximizing, 0, None, worst(maximizing));
    }
}

proof fn lemma_scan_widest(
    g: Grid,
    depth: nat,
    maximizing: bool,
    c: nat,
    best_col: Option<int>,
    best: int,
)
    requires
        g.wf(),
        depth > 0,
        best == worst(maximizing) || is_score(best),
    ensures
        maximizing ==> scan(g, depth, best, i32::MAX as int, true, c, best_col, best) == full_scan(
            g,
            depth,
            true,
            c,
            best_col,
            best,
        ),
        !maximizing ==> scan(g, depth, i32::MIN as int, best, false, c, best_col, best)
            == full_scan(g, depth, false, c, best_col, best),
    decreases g.cols - c,
{
    if c >= g.cols {
    } else if !g.can_drop(c as int) {
        lemma_scan_widest(g, depth, maximizing, c + 1, best_col, best);
    } else {
        let child = g.drop(c as int, mover(maximizing));
        lemma_drop(g, c as int, mover(maximizing));
        if maximizing {
            lemma_window(child, (depth - 1) as nat, best, i32::MAX as int, false);
            lemma_search_bound(child, (depth - 1) as nat, best, i32::MAX as int, false);
            let s = search(child, (depth - 1) as nat, best, i32::MAX as int, false).1;
            if s > best {
                lemma_scan_widest(g, depth, true, c + 1, Some(c as int), s);
            } else {
                lemma_scan_widest(g, depth, true, c + 1, best_col, best);
            }
        } else {
            lemma_window(child, (depth - 1) as nat, i32::MIN as int, best, true);
            lemma_search_bound(child, (depth - 1) as nat, i32::MIN as int, best, true);
            let s = search(child, (depth - 1) as nat, i32::MIN as int, best, true).1;
            if s < best {
                lemma_scan_widest(g, depth, false, c + 1, Some(c as int), s);
            } else {
                lemma_scan_widest(g, depth, false, c + 1, best_col, best);
            }
        }
    }
}

/// The full score of a position lies between loss and win.
pub proof fn lemma_value_bound(g: Grid, depth: nat, maximizing: bool)
    requires
        g.wf(),
    ensures
        is_score(value(g, depth, maximizing)),
{
    lemma_full_window(g, depth, maximizing);
    lemma_search_bound(g, depth, i32::MIN as int, i32::MAX as int, maximizing);
}

/// A maximising scan that already stands at a win keeps its column.
proof fn lemma_full_scan_keeps_win(g: Grid, depth: nat, c: nat, best_col: Option<int>)
    requires
        g.wf(),
    ensures
        full_scan(g, depth, true, c, best_col, WIN as int) == (best_col, WIN as int),
    decreases g.cols - c,
{
    if depth == 0 || c >= g.cols {
    } else {
        if g.can_drop(c as int) {
            lemma_drop(g, c as int, Piece::AI);
            lemma_value_bound(g.drop(c as int, Piece::AI), (depth - 1) as nat, false);
        }
        lemma_full_scan_keeps_win(g, depth, c + 1, best_col);
    }
}

proof fn lemma_full_scan_reaches_win(
    g: Grid,
    depth: nat,
    c: nat,
    best_col: Option<int>,
    best: int,
    w: int,
)
    requires
        g.wf(),
        depth > 0,
        c <= w,
        best < WIN,
        g.can_drop(w),
        g.drop(w, Piece::AI).wins(Piece::AI),
        forall|x: int|
            0 <= x < w && g.can_drop(x) ==> value(
                #[trigger] g.drop(x, Piece::AI),
                (depth - 1) as nat,
                false,
            ) < WIN,
    ensures
        full_scan(g, depth, true, c, best_col, best) == (Some(w), WIN as int),
    decreases w - c,
{
    if c == w {
        lemma_full_scan_keeps_win(g, depth, c + 1, Some(w));
    } else if !g.can_drop(c as int) {
        lemma_full_scan_reaches_win(g, depth, c + 1, best_col, best, w);
    } else {
        let v = value(g.drop(c as int, Piece::AI), (depth - 1) as nat, false);
        if v > best {
            lemma_full_scan_reaches_win(g, depth, c + 1, Some(c as int), v, w);
        } else {
            lemma_full_scan_reaches_win(g, depth, c + 1, best_col, best, w);
        }
    }
}

/// A win in one move is taken: if the machine wins by dropping into `w`, and
/// no column left of `w` is worth a win to it, then at any depth but zero
/// the search of a position that is not decided chooses `w`.
pub proof fn lemma_takes_win(g: Grid, depth: nat, w: int)
    requires
        g.wf(),
        decided(g) is None,
        depth >= 1,
        g.can_drop(w),
        g.drop(w, Piece::AI).wins(Piece::AI),
        forall|x: int|
            0 <= x < w && g.can_drop(x) ==> value(
                #[trigger] g.drop(x, Piece::AI),
                (depth - 1) as nat,
                false,
            ) < WIN,
    ensures
        search(g, depth, i32::MIN as int, i32::MAX as int, true) == (Some(w), WIN as int),
{
    lemma_full_window(g, depth, true);
    lemma_full_scan_reaches_win(g, depth, 0, None, worst(true), w);
}

/// A minimising full scan ends no higher than the score of any column that
/// it still has to try.
proof fn lemma_full_scan_min_reaches(
    g: Grid,
    depth: nat,
    c: nat,
    best_col: Option<int>,
    best: int,
    y: int,
)
    requires
        depth > 0,
        c <= y,
        g.can_drop(y),
    ensures
        full_scan(g, depth, false, c, best_col, best).1 <= value(
            g.drop(y, Piece::Player),
            (depth - 1) as nat,
            true,
        ),
    decreases y - c,
{
    let v = value(g.drop(c as int, Piece::Player), (depth - 1) as nat, true);
    if c == y {
        if v < best {
            lemma_full_scan_improves(g, depth, false, c + 1, Some(c as int), v);
        } else {
            lemma_full_scan_improves(g, depth, false, c + 1, best_col, best);
        }
    } else if !g.can_drop(c as int) {
        lemma_full_scan_min_reaches(g, depth, c + 1, best_col, best, y);
    } else if v < best {
        lemma_full_scan_min_reaches(g, depth, c + 1, Some(c as int), v, y);
    } else {
        lemma_full_scan_min_reaches(g, depth, c + 1, best_col, best, y);
    }
}

/// A position in which the machine has no line is worth less than a win to
/// it as long as the search ends before the machine moves again.
proof fn lemma_no_win_yet(g: Grid, depth: nat, maximizing: bool)
    requires
        g.wf(),
        !g.wins(Piece::AI),
        depth == 0 || (depth == 1 && !maximizing),
    ensures
        value(g, depth, maximizing) < WIN,
    decreases depth,
{
    if decided(g) is Some {
    } else if depth == 0 {
        lemma_evaluate_bound(g, mover(maximizing));
    } else {
        let y = lemma_not_full(g);
        lemma_full_scan_min_reaches(g, depth, 0, None, worst(false), y);
        lemma_drop(g, y, Piece::Player);
        lemma_drop_lines(g, y, Piece::Player, Piece::AI);
        lemma_no_win_yet(g.drop(y, Piece::Player), 0, true);
    }
}

/// One or two plies deep, the machine takes the leftmost column that wins
/// at once.
pub proof fn lemma_takes_first_win(g: Grid, depth: nat, w: int)
    requires
        g.wf(),
        decided(g) is None,
        1 <= depth <= 2,
        g.can_drop(w),
        g.drop(w, Piece::AI).wins(Piece::AI),
        forall|x: int| 0 <= x < w && g.can_drop(x) ==> !(#[trigger] g.drop(x, Piece::AI)).wins(
            Piece::AI,
        ),
    ensures
        search(g, depth, i32::MIN as int, i32::MAX as int, true) == (Some(w), WIN as int),
{
    assert forall|x: int| 0 <= x < w && g.can_drop(x) implies value(
        #[trigger] g.drop(x, Piece::AI),
        (depth - 1) as nat,
        false,
    ) < WIN by {
        lemma_drop(g, x, Piece::AI);
        lemma_no_win_yet(g.drop(x, Piece::AI), (depth - 1) as nat, false);
    }
    lemma_takes_win(g, depth, w);
}

} // verus!
