//! Scoring a position that is not decided yet.
//!
//! The score counts, for each side, the empty cells at the ends of its runs,
//! adds a bonus for a side that threatens in two places at once, and prefers
//! pieces near the middle columns. Only a cell of the board can be an open
//! end: the spare slot above a column and the slots past the last column
//! hold nothing, but no piece can go there.

use vstd::prelude::*;
use std::collections::HashSet;
use crate::bitboard::{free_cells, BitBoard, Piece};
use crate::bits::{
    bit, count_below, count_ones, free_in, lemma_bit_and, lemma_bit_window, lemma_count_agree,
    lemma_count_bound, lemma_count_none, lemma_count_window, lemma_or_commutes,
    lemma_shifted_one, shifted, slots_of,
};
use crate::grid::{Grid, lemma_geometry_bounds, lemma_reach_fits, lemma_slot_of_cell, opponent};
use crate::lines::direction_at;
use crate::runs::{end_slots, lemma_no_slots_no_run, open_end, open_ends};

verus! {

broadcast use vstd::std_specs::hash::group_hash_axioms;

/// The open ends of runs of `len` own slots along the first `n` directions,
/// each direction counted by itself.
pub open spec fn ends_in_directions(
    own: spec_fn(int) -> bool,
    free: spec_fn(int) -> bool,
    stride: int,
    len: nat,
    n: nat,
) -> nat
    decreases n,
{
    if n == 0 {
        0
    } else {
        ends_in_directions(own, free, stride, len, (n - 1) as nat) + count_below(
            128,
            open_ends(own, free, direction_at(n - 1).step(stride), len),
        )
    }
}

/// The open ends of runs of `len` own slots, summed over the four
/// directions. A slot that is an open end along two directions counts twice.
pub open spec fn count_open_ends(
    own: spec_fn(int) -> bool,
    free: spec_fn(int) -> bool,
    stride: int,
    len: nat,
) -> nat {
    ends_in_directions(own, free, stride, len, 4)
}

/// The slots that are an open end of a run of `len` own slots along some
/// direction.
pub open spec fn threat_slots(
    own: spec_fn(int) -> bool,
    free: spec_fn(int) -> bool,
    stride: int,
    len: nat,
) -> Set<u8> {
    Set::new(
        |j: u8|
            j < 128 && exists|i: int|
                0 <= i < 4 && open_end(
                    own,
                    free,
                    (#[trigger] direction_at(i)).step(stride),
                    len,
                    j as int,
                ),
    )
}

/// What a position is worth to a side that has `connect` in a row.
pub const WIN_SCORE: i32 = 1_000_000;

/// What two threats at once are worth.
pub const DOUBLE_THREAT_BONUS: i32 = 5000;

/// What one open end of a run of `len` is worth where `connect` win.
pub open spec fn run_weight(connect: nat, len: nat) -> int {
    if len + 1 == connect {
        1000
    } else if len + 2 == connect {
        100
    } else {
        10
    }
}

/// The open ends of `side`'s runs of `len`.
pub open spec fn side_ends(g: Grid, side: Piece, len: nat) -> nat {
    count_open_ends(g.holds(side), g.free(), g.stride(), len)
}

/// The weighted open ends of `side`'s runs less those of its opponent, for
/// the lengths from `lo` up to `connect - 1`.
pub open spec fn run_score(g: Grid, side: Piece, lo: nat) -> int
    decreases g.connect - lo,
{
    if lo >= g.connect {
        0
    } else {
        run_weight(g.connect, lo) * side_ends(g, side, lo) - run_weight(g.connect, lo) * side_ends(
            g,
            opponent(side),
            lo,
        ) + run_score(g, side, lo + 1)
    }
}

/// `side` has two or more slots that would complete a winning run.
pub open spec fn has_fork(g: Grid, side: Piece) -> bool {
    threat_slots(g.holds(side), g.free(), g.stride(), (g.connect - 1) as nat).len() >= 2
}

/// The bonus for `side`'s fork less that for its opponent's.
pub open spec fn fork_score(g: Grid, side: Piece) -> int {
    (if has_fork(g, side) {
        5000int
    } else {
        0int
    }) - (if has_fork(g, opponent(side)) {
        5000int
    } else {
        0int
    })
}

/// The weight of column `c`: highest in the middle, falling by one per
/// column towards either edge.
pub open spec fn center_weight(cols: int, c: int) -> int {
    let mid = cols / 2;
    mid - if mid >= c {
        mid - c
    } else {
        c - mid
    }
}

/// The rows of column `c` that hold `side`.
pub open spec fn column_holds(g: Grid, side: Piece, c: int) -> spec_fn(int) -> bool {
    |r: int| g.cell(r, c) == side
}

/// The number of `side`'s pieces in column `c`.
pub open spec fn pieces_in_column(g: Grid, side: Piece, c: int) -> nat {
    count_below(g.rows, column_holds(g, side, c))
}

/// `side`'s pieces in the first `n` columns, each counted with the weight
/// of its column.
pub open spec fn center_sum(g: Grid, side: Piece, n: nat) -> int
    decreases n,
{
    if n == 0 {
        0
    } else {
        center_sum(g, side, (n - 1) as nat) + center_weight(g.cols as int, n - 1)
            * pieces_in_column(g, side, n - 1)
    }
}

/// How much `side`'s pieces lean to the middle: a fifth of their weighted
/// count.
pub open spec fn center(g: Grid, side: Piece) -> int {
    if side == Piece::Empty {
        0
    } else {
        center_sum(g, side, g.cols) / 5
    }
}

/// The score of a position as `side` sees it: positive favours `side`.
pub open spec fn evaluate(g: Grid, side: Piece) -> int {
    if side == Piece::Empty {
        0
    } else if g.wins(side) {
        1_000_000
    } else if g.wins(opponent(side)) {
        -1_000_000
    } else {
        run_score(g, side, 2) + fork_score(g, side) + center(g, side) - center(g, opponent(side))
    }
}

pub proof fn lemma_ends_bound(
    own: spec_fn(int) -> bool,
    free: spec_fn(int) -> bool,
    stride: int,
    len: nat,
    n: nat,
)
    ensures
        ends_in_directions(own, free, stride, len, n) <= 128 * n,
    decreases n,
{
    if n > 0 {
        lemma_ends_bound(own, free, stride, len, (n - 1) as nat);
        lemma_count_bound(128, open_ends(own, free, direction_at(n - 1).step(stride), len));
    }
}

pub proof fn lemma_run_score_bound(g: Grid, side: Piece, lo: nat)
    requires
        lo <= g.connect,
    ensures
        -512_000 * (g.connect - lo) <= run_score(g, side, lo) <= 512_000 * (g.connect - lo),
    decreases g.connect - lo,
{
    if lo < g.connect {
        lemma_run_score_bound(g, side, lo + 1);
        lemma_ends_bound(g.holds(side), g.free(), g.stride(), lo, 4);
        lemma_ends_bound(g.holds(opponent(side)), g.free(), g.stride(), lo, 4);
        let w = run_weight(g.connect, lo);
        let a = side_ends(g, side, lo);
        let b = side_ends(g, opponent(side), lo);
        assert(0 <= w * a <= 512_000 && 0 <= w * b <= 512_000) by (nonlinear_arith)
            requires
                0 <= w <= 1000,
                0 <= a <= 512,
                0 <= b <= 512,
        ;
    }
}

pub proof fn lemma_center_sum_bound(g: Grid, side: Piece, n: nat)
    requires
        n <= g.cols,
    ensures
        0 <= center_sum(g, side, n) <= n * (g.cols * g.rows),
    decreases n,
{
    if n > 0 {
        lemma_center_sum_bound(g, side, (n - 1) as nat);
        lemma_count_bound(g.rows, column_holds(g, side, n - 1));
        let w = center_weight(g.cols as int, n - 1);
        let p = pieces_in_column(g, side, n - 1);
        let cols = g.cols;
        let rows = g.rows;
        assert(0 <= w * p <= cols * rows) by (nonlinear_arith)
            requires
                0 <= w <= cols,
                0 <= p <= rows,
        ;
        assert(n * (cols * rows) == (n - 1) * (cols * rows) + cols * rows) by (nonlinear_arith);
    }
}

/// The score of a well-formed position stays far inside the range of `i32`.
pub proof fn lemma_evaluate_bound(g: Grid, side: Piece)
    requires
        g.wf(),
    ensures
        -5_000_000 < evaluate(g, side) < 5_000_000,
{
    lemma_geometry_bounds(g.rows, g.cols, g.connect);
    lemma_run_score_bound(g, side, 2);
    lemma_center_bound(g, side);
    lemma_center_bound(g, opponent(side));
}

pub proof fn lemma_center_bound(g: Grid, side: Piece)
    requires
        g.wf(),
    ensures
        0 <= center(g, side) <= 25_000,
{
    lemma_geometry_bounds(g.rows, g.cols, g.connect);
    lemma_center_sum_bound(g, side, g.cols);
    let cols = g.cols;
    let rows = g.rows;
    assert(cols * (cols * rows) <= 42 * 128) by (nonlinear_arith)
        requires
            cols <= 42,
            cols * (rows + 1) <= 128,
    ;
}

/// A side without a piece has no open end and no threat.
pub proof fn lemma_no_pieces_no_ends(free: spec_fn(int) -> bool, stride: int, len: nat)
    requires
        1 <= len,
    ensures
        count_open_ends(slots_of(0), free, stride, len) == 0,
        threat_slots(slots_of(0), free, stride, len) == Set::<u8>::empty(),
{
    assert forall|step: int, j: int| !open_end(slots_of(0), free, step, len, j) by {
        lemma_no_slots_no_run(j + step, step, len);
        lemma_no_slots_no_run(j - len * step, step, len);
    }
    assert forall|i: int| 0 <= i < 4 implies count_below(
        128,
        #[trigger] open_ends(slots_of(0), free, direction_at(i).step(stride), len),
    ) == 0 by {
        let ends = open_ends(slots_of(0), free, direction_at(i).step(stride), len);
        assert forall|j: int| #[trigger] ends(j) implies 128 <= j by {
            assert(!open_end(slots_of(0), free, direction_at(i).step(stride), len, j));
        }
        lemma_count_none(128, ends);
    }
    reveal_with_fuel(ends_in_directions, 5);
    assert(ends_in_directions(slots_of(0), free, stride, len, 4) == 0);
    assert(threat_slots(slots_of(0), free, stride, len) =~= Set::<u8>::empty());
}

/// A mask of the cells of a position frees what the position frees.
proof fn lemma_free(g: Grid, cells: u128, taken: u128)
    requires
        slots_of(cells) == g.cells(),
    ensures
        free_in(cells, taken) == free_cells(g, taken),
{
    assert forall|j: int| bit(cells, j) == g.is_cell(j) by {
        let set = slots_of(cells);
        let on_board = g.cells();
        assert(set(j) == bit(cells, j));
        assert(on_board(j) == g.is_cell(j));
    }
    assert(free_in(cells, taken) =~= free_cells(g, taken));
}

// The threat slots found once the directions before `n` are done, and the
// slots before `k` of direction `n`.
spec fn threats_before(
    own: spec_fn(int) -> bool,
    free: spec_fn(int) -> bool,
    stride: int,
    len: nat,
    n: int,
    k: int,
) -> Set<u8> {
    Set::new(
        |j: u8|
            j < 128 && exists|i: int|
                0 <= i < 4 && (i < n || (i == n && j < k)) && open_end(
                    own,
                    free,
                    (#[trigger] direction_at(i)).step(stride),
                    len,
                    j as int,
                ),
    )
}

/// Counts the empty cells at the ends of `player`'s runs of `target_len`
/// slots, direction by direction. A cell that ends runs along two
/// directions counts twice.
pub fn count_unblocked_sequences(
    board: &BitBoard,
    player: u128,
    opponent: u128,
    target_len: u8,
) -> (count: usize)
    requires
        board.wf(),
        1 <= target_len < board.connect,
    ensures
        count == count_open_ends(
            slots_of(player),
            free_cells(board@, player | opponent),
            board@.stride(),
            target_len as nat,
        ),
        count <= 512,
{
    let directions = board.steps();
    let cells = board.cells();
    proof {
        lemma_free(board@, cells, player | opponent);
    }
    let mut count: usize = 0;
    let mut d: usize = 0;
    while d < 4
        invariant
            board.wf(),
            1 <= target_len < board.connect,
            d <= 4,
            free_in(cells, player | opponent) == free_cells(board@, player | opponent),
            forall|k: int|
                0 <= k < 4 ==> #[trigger] directions[k] == direction_at(k).step(board@.stride())
                    && 1 <= directions[k] <= 65,
            count == ends_in_directions(
                slots_of(player),
                free_cells(board@, player | opponent),
                board@.stride(),
                target_len as nat,
                d as nat,
            ),
            count <= 128 * d,
        decreases 4 - d,
    {
        let step = directions[d];
        proof {
            assert(step == directions[d as int]);
            lemma_reach_fits(
                board.rows as nat,
                board.cols as nat,
                board.connect as nat,
                step as nat,
                target_len as nat,
            );
        }
        let threats = end_slots(player, opponent, cells, step, target_len);
        proof {
            let ends = open_ends(
                slots_of(player),
                free_cells(board@, player | opponent),
                step as int,
                target_len as nat,
            );
            lemma_count_agree(128, slots_of(threats), ends);
            lemma_count_bound(128, ends);
        }
        count += count_ones(threats) as usize;
        d += 1;
    }
    count
}

/// Collects the empty cells at the ends of `player`'s runs of `target_len`
/// slots: with `connect - 1` for `target_len`, the cells that complete a
/// winning run.
pub fn find_threat_cells(
    board: &BitBoard,
    player: u128,
    opponent: u128,
    target_len: u8,
) -> (threats: HashSet<u8>)
    requires
        board.wf(),
        1 <= target_len < board.connect,
    ensures
        threats@ == threat_slots(
            slots_of(player),
            free_cells(board@, player | opponent),
            board@.stride(),
            target_len as nat,
        ),
        forall|j: u8|
            threats@.contains(j) ==> board@.is_cell(j as int) && !bit(player | opponent, j as int),
{
    let directions = board.steps();
    let cells = board.cells();
    proof {
        lemma_free(board@, cells, player | opponent);
    }
    let mut threats: HashSet<u8> = HashSet::new();
    let ghost own = slots_of(player);
    let ghost free_slots = free_cells(board@, player | opponent);
    let ghost stride = board@.stride();
    let ghost len = target_len as nat;
    assert(threats@ =~= threats_before(own, free_slots, stride, len, 0, 0));
    let mut d: usize = 0;
    while d < 4
        invariant
            board.wf(),
            1 <= target_len < board.connect,
            d <= 4,
            own == slots_of(player),
            free_slots == free_cells(board@, player | opponent),
            free_slots == free_in(cells, player | opponent),
            stride == board@.stride(),
            len == target_len as nat,
            forall|k: int|
                0 <= k < 4 ==> #[trigger] directions[k] == direction_at(k).step(stride) && 1
                    <= directions[k] <= 65,
            threats@ == threats_before(own, free_slots, stride, len, d as int, 0),
        decreases 4 - d,
    {
        let step = directions[d];
        proof {
            assert(step == directions[d as int]);
            lemma_reach_fits(
                board.rows as nat,
                board.cols as nat,
                board.connect as nat,
                step as nat,
                target_len as nat,
            );
        }
        let free = end_slots(player, opponent, cells, step, target_len);
        let mut i: u8 = 0;
        while i < 128
            invariant
                i <= 128,
                d < 4,
                step == direction_at(d as int).step(stride),
                forall|j: int|
                    0 <= j < 128 ==> (bit(free, j) <==> open_end(
                        own,
                        free_slots,
                        step as int,
                        len,
                        j,
                    )),
                threats@ == threats_before(own, free_slots, stride, len, d as int, i as int),
            decreases 128 - i,
        {
            let ghost before = threats@;
            if (free >> i) & 1 == 1 {
                threats.insert(i);
            }
            proof {
                assert(bit(free, i as int) <==> open_end(
                    own,
                    free_slots,
                    step as int,
                    len,
                    i as int,
                ));
                assert(threats@ =~= threats_before(
                    own,
                    free_slots,
                    stride,
                    len,
                    d as int,
                    i as int + 1,
                ));
            }
            i += 1;
        }
        assert(threats@ =~= threats_before(own, free_slots, stride, len, d as int + 1, 0));
        d += 1;
    }
    assert(threats@ =~= threat_slots(own, free_slots, stride, len));
    threats
}

/// Scores how much `piece`'s side leans to the middle columns.
pub fn center_preference(board: &BitBoard, piece: Piece) -> (score: i32)
    requires
        board.wf(),
    ensures
        score == center(board@, piece),
        0 <= score <= 25_000,
{
    let bitboard = match piece {
        Piece::Player => board.player_mask,
        Piece::AI => board.ai_mask,
        Piece::Empty => {
            return 0;
        },
    };
    proof {
        board.lemma_masks();
        board.lemma_view();
        lemma_geometry_bounds(board.rows as nat, board.cols as nat, board.connect as nat);
        lemma_center_bound(board@, piece);
        lemma_shifted_one(board.rows as u128);
        assert(board.cols * (board.cols * board.rows) <= 42 * 128) by (nonlinear_arith)
            requires
                board.cols <= 42,
                board.cols * (board.rows + 1) <= 128,
        ;
    }
    let mid: i32 = board.cols as i32 / 2;
    let mut score: i32 = 0;
    let full: u128 = (1u128 << board.rows) - 1;
    let mut c: u8 = 0;
    while c < board.cols
        invariant
            board.wf(),
            c <= board.cols,
            piece != Piece::Empty,
            slots_of(bitboard) == board@.holds(piece),
            board@.rows == board.rows,
            board@.cols == board.cols,
            2 <= board.rows <= 63,
            2 <= board.cols <= 42,
            mid == board.cols as int / 2,
            full == (1u128 << board.rows) - 1,
            score == center_sum(board@, piece, c as nat),
            0 <= score <= c * (board.cols * board.rows),
            board.cols * (board.cols * board.rows) <= 42 * 128,
        decreases board.cols - c,
    {
        proof {
            lemma_slot_of_cell(board.rows + 1, 0, c as int);
            assert(c * (board.rows + 1) + board.rows < board.cols * (board.rows + 1))
                by (nonlinear_arith)
                requires
                    c < board.cols,
            ;
        }
        let col_start: u8 = c * (board.rows + 1);
        let mask = full << col_start;
        let count: i32 = count_ones(bitboard & mask) as i32;
        let away: i32 = if mid >= c as i32 {
            mid - c as i32
        } else {
            c as i32 - mid
        };
        let weight: i32 = mid - away;
        proof {
            let g = board@;
            let window = slots_of(bitboard & mask);
            assert forall|j: int| #[trigger] window(j) implies col_start <= j < col_start
                + board.rows by {
                lemma_bit_and(bitboard, mask, j);
                lemma_bit_window(full, board.rows as u128, col_start as u128, j);
            }
            lemma_count_window(window, col_start as nat, board.rows as nat, 128);
            assert forall|r: int| 0 <= r < board.rows implies #[trigger] shifted(
                window,
                col_start as int,
            )(r) == column_holds(g, piece, c as int)(r) by {
                lemma_bit_and(bitboard, mask, col_start + r);
                lemma_bit_window(full, board.rows as u128, col_start as u128, col_start + r);
                lemma_slot_of_cell(board.rows + 1, r, c as int);
                assert(slots_of(bitboard)(col_start + r) == g.holds(piece)(col_start + r));
            }
            lemma_count_agree(
                board.rows as nat,
                shifted(window, col_start as int),
                column_holds(g, piece, c as int),
            );
            lemma_center_sum_bound(g, piece, (c + 1) as nat);
            lemma_count_bound(g.rows, column_holds(g, piece, c as int));
            assert(0 <= weight * count <= 42 * 63) by (nonlinear_arith)
                requires
                    0 <= weight <= 42,
                    0 <= count <= 63,
            ;
            assert((c + 1) * (board.cols * board.rows) <= board.cols * (board.cols * board.rows))
                by (nonlinear_arith)
                requires
                    c + 1 <= board.cols,
                    0 <= board.cols * board.rows,
            ;
        }
        score += weight * count;
        c += 1;
    }
    score / 5
}

/// Scores the position as `piece`'s side sees it.
pub fn evaluate_heuristic(board: &BitBoard, piece: Piece) -> (score: i32)
    requires
        board.wf(),
    ensures
        score == evaluate(board@, piece),
{
    let (player_mask, opponent_mask) = match piece {
        Piece::AI => (board.ai_mask, board.player_mask),
        Piece::Player => (board.player_mask, board.ai_mask),
        _ => {
            return 0;
        },
    };
    if board.check_win(piece) {
        return WIN_SCORE;
    }
    let opponent_piece = match piece {
        Piece::AI => Piece::Player,
        Piece::Player => Piece::AI,
        _ => {
            return 0;
        },
    };
    if board.check_win(opponent_piece) {
        return -WIN_SCORE;
    }
    let ghost g = board@;
    proof {
        board.lemma_masks();
        board.lemma_view();
        lemma_or_commutes(board.player_mask, board.ai_mask);
        lemma_geometry_bounds(board.rows as nat, board.cols as nat, board.connect as nat);
    }
    let mut score: i32 = 0;
    let mut len: u8 = board.connect - 1;
    while len >= 2
        invariant
            board.wf(),
            g == board@,
            g.connect == board.connect,
            2 <= board.connect <= 10,
            1 <= len < board.connect,
            piece != Piece::Empty,
            opponent_piece == opponent(piece),
            slots_of(player_mask) == g.holds(piece),
            slots_of(opponent_mask) == g.holds(opponent_piece),
            free_cells(g, player_mask | opponent_mask) == g.free(),
            free_cells(g, opponent_mask | player_mask) == g.free(),
            score == run_score(g, piece, (len + 1) as nat),
        decreases len,
    {
        let weight: i32 = if len == board.connect - 1 {
            1000
        } else if len == board.connect - 2 {
            100
        } else {
            10
        };
        let player_count = count_unblocked_sequences(board, player_mask, opponent_mask, len);
        let opponent_count = count_unblocked_sequences(board, opponent_mask, player_mask, len);
        proof {
            lemma_run_score_bound(g, piece, (len + 1) as nat);
            lemma_run_score_bound(g, piece, len as nat);
            assert(0 <= weight * player_count <= 512_000 && 0 <= weight * opponent_count
                <= 512_000) by (nonlinear_arith)
                requires
                    0 <= weight <= 1000,
                    0 <= player_count <= 512,
                    0 <= opponent_count <= 512,
            ;
        }
        score += weight * player_count as i32;
        score -= weight * opponent_count as i32;
        len -= 1;
    }
    proof {
        lemma_run_score_bound(g, piece, 2);
    }
    let player_threats = find_threat_cells(board, player_mask, opponent_mask, board.connect - 1);
    let opponent_threats = find_threat_cells(board, opponent_mask, player_mask, board.connect - 1);
    if player_threats.len() >= 2 {
        score += DOUBLE_THREAT_BONUS;
    }
    if opponent_threats.len() >= 2 {
        score -= DOUBLE_THREAT_BONUS;
    }
    let center_score = center_preference(board, piece);
    let opponent_center = center_preference(board, opponent_piece);
    score + center_score - opponent_center
}

} // verus!
