use connect_n::bitboard::{BitBoard, Piece};
use connect_n::bits::count_ones;
use connect_n::heuristic::{
    center_preference, count_unblocked_sequences, evaluate_heuristic, find_threat_cells,
};
use connect_n::runs::{end_slots, run_starts};

fn drops(board: &BitBoard, moves: &[(u8, Piece)]) -> BitBoard {
    let mut b = board.clone();
    for &(col, piece) in moves {
        b = b.drop_piece(col, piece).unwrap();
    }
    b
}

fn sorted(set: std::collections::HashSet<u8>) -> Vec<u8> {
    let mut v: Vec<u8> = set.into_iter().collect();
    v.sort();
    v
}

#[test]
fn count_ones_counts_set_slots() {
    assert_eq!(count_ones(0), 0);
    assert_eq!(count_ones(1), 1);
    assert_eq!(count_ones(0b1011), 3);
    assert_eq!(count_ones(1u128 << 127), 1);
    assert_eq!(count_ones(u128::MAX), 128);
}

#[test]
fn run_starts_marks_the_first_slot_of_each_run() {
    assert_eq!(run_starts(0b0111, 1, 1), 0b0111);
    assert_eq!(run_starts(0b0111, 1, 2), 0b0011);
    assert_eq!(run_starts(0b0111, 1, 3), 0b0001);
    assert_eq!(run_starts(0b0111, 1, 4), 0);
    // slots 0, 7 and 14 are seven apart
    let m = 1u128 | (1 << 7) | (1 << 14);
    assert_eq!(run_starts(m, 7, 3), 1);
    assert_eq!(run_starts(m, 7, 2), 1 | (1 << 7));
    assert_eq!(run_starts(m, 1, 2), 0);
}

#[test]
fn end_slots_are_the_free_slots_before_and_after_a_run() {
    let all = u128::MAX;
    // own slots 3 and 4, step 1: the ends are slots 2 and 5
    let own = (1u128 << 3) | (1 << 4);
    assert_eq!(end_slots(own, 0, all, 1, 2), (1 << 2) | (1 << 5));
    // the other side holds slot 5
    assert_eq!(end_slots(own, 1 << 5, all, 1, 2), 1 << 2);
    // both ends taken
    assert_eq!(end_slots(own, (1 << 5) | (1 << 2), all, 1, 2), 0);
    // a run that starts at slot 0 has no slot before it
    assert_eq!(end_slots(0b11, 0, all, 1, 2), 0b100);
    // a run that ends at slot 127 has no slot after it
    let top = (1u128 << 127) | (1 << 126);
    assert_eq!(end_slots(top, 0, all, 1, 2), 1 << 125);
    // slot 2 is no cell
    assert_eq!(end_slots(own, 0, !(1u128 << 2), 1, 2), 1 << 5);
    // no cells, no ends
    assert_eq!(end_slots(own, 0, 0, 1, 2), 0);
}

#[test]
fn cells_are_all_slots_but_the_spare_ones() {
    let b = BitBoard::new(6, 7, 4);
    let mut expected: u128 = 0;
    for c in 0..7 {
        for r in 0..6 {
            expected |= 1 << (c * 7 + r);
        }
    }
    assert_eq!(b.cells(), expected);
    assert_eq!(BitBoard::new(2, 2, 2).cells(), 0b011_011);
    assert_eq!(BitBoard::new(63, 2, 2).cells(), !((1u128 << 63) | (1u128 << 127)));
    let filled = drops(&b, &[(0, Piece::AI), (3, Piece::Player)]);
    assert_eq!(filled.cells(), expected);
}

#[test]
fn two_stacked_pieces_have_one_open_end() {
    let b = drops(&BitBoard::new(6, 7, 4), &[(3, Piece::AI), (3, Piece::AI)]);
    // the pieces hold slots 21 and 22; the cell above is slot 23; below the
    // run lies slot 20, the spare slot of column 2, which is no cell
    assert_eq!(count_unblocked_sequences(&b, b.ai_mask, b.player_mask, 2), 1);
    assert_eq!(count_unblocked_sequences(&b, b.ai_mask, b.player_mask, 3), 0);
    assert_eq!(count_unblocked_sequences(&b, b.player_mask, b.ai_mask, 2), 0);
    assert_eq!(sorted(find_threat_cells(&b, b.ai_mask, b.player_mask, 2)), vec![23]);
    assert_eq!(sorted(find_threat_cells(&b, b.ai_mask, b.player_mask, 3)), Vec::<u8>::new());
}

#[test]
fn a_run_capped_by_the_other_side_has_no_open_end() {
    let b = drops(
        &BitBoard::new(6, 7, 4),
        &[(3, Piece::AI), (3, Piece::AI), (3, Piece::Player)],
    );
    // no empty cell touches the run of two in column 3
    assert_eq!(count_unblocked_sequences(&b, b.ai_mask, b.player_mask, 2), 0);
    assert_eq!(sorted(find_threat_cells(&b, b.ai_mask, b.player_mask, 2)), Vec::<u8>::new());
}

#[test]
fn a_run_under_the_top_of_its_column_has_no_end_above() {
    // two rows: the run fills column 1, the slot above it is the spare one
    let b = drops(&BitBoard::new(2, 3, 2), &[(1, Piece::AI), (1, Piece::AI)]);
    // The pieces hold slots 3 and 4. Vertical: slot 2 below and slot 5 above
    // are spare slots; neither counts. Horizontal: 0 and 6 beside slot 3, 1
    // and 7 beside slot 4. Rising: 7 after slot 3, 0 before slot 4. Falling:
    // 1 before slot 3, 6 after slot 4.
    assert_eq!(count_unblocked_sequences(&b, b.ai_mask, b.player_mask, 1), 8);
    assert_eq!(
        sorted(find_threat_cells(&b, b.ai_mask, b.player_mask, 1)),
        vec![0, 1, 6, 7]
    );
}

#[test]
fn no_pieces_no_ends() {
    let b = drops(&BitBoard::new(6, 7, 4), &[(3, Piece::Player), (4, Piece::Player)]);
    for len in 1..4 {
        assert_eq!(count_unblocked_sequences(&b, 0, b.player_mask, len), 0);
        assert!(find_threat_cells(&b, 0, b.player_mask, len).is_empty());
    }
}

#[test]
fn single_pieces_count_along_all_four_directions() {
    let b = drops(&BitBoard::new(6, 7, 4), &[(3, Piece::AI)]);
    // slot 21 is the bottom of column 3. Its neighbours on the board: 22
    // above, 14 and 28 beside, 15 up to the left and 29 up to the right.
    // Slots 20, 13 and 27 are spare slots.
    assert_eq!(count_unblocked_sequences(&b, b.ai_mask, b.player_mask, 1), 5);
    assert_eq!(
        sorted(find_threat_cells(&b, b.ai_mask, b.player_mask, 1)),
        vec![14, 15, 22, 28, 29]
    );
}

#[test]
fn an_end_shared_by_two_directions_is_counted_twice_but_found_once() {
    let start = BitBoard::new(6, 7, 4);
    let b = drops(
        &start,
        &[
            (0, Piece::AI),
            (0, Piece::Player),
            (0, Piece::AI),
            (1, Piece::AI),
            (1, Piece::AI),
        ],
    );
    // AI holds slots 0, 2, 7, 8. Player holds slot 1.
    assert_eq!(b.ai_mask, 1 | (1 << 2) | (1 << 7) | (1 << 8));
    let found = sorted(find_threat_cells(&b, b.ai_mask, b.player_mask, 2));
    let count = count_unblocked_sequences(&b, b.ai_mask, b.player_mask, 2);
    // vertical 7,8: end 9 (slot 6 is spare). horizontal 0,7: end 14. rising
    // 0,8: end 16. falling 2,8: end 14. Slot 14 is counted for two
    // directions.
    assert_eq!(found, vec![9, 14, 16]);
    assert_eq!(count, 4);
}

#[test]
fn center_preference_weighs_columns_by_distance_from_the_middle() {
    let start = BitBoard::new(6, 7, 4);
    assert_eq!(center_preference(&start, Piece::AI), 0);
    // weights of the columns: 0 1 2 3 2 1 0
    let b = drops(
        &start,
        &[
            (3, Piece::AI),
            (3, Piece::AI),
            (2, Piece::AI),
            (4, Piece::AI),
            (1, Piece::AI),
            (0, Piece::AI),
            (6, Piece::Player),
            (3, Piece::Player),
        ],
    );
    // AI: 3 + 3 + 2 + 2 + 1 + 0 = 11, a fifth is 2
    assert_eq!(center_preference(&b, Piece::AI), 2);
    // Player: 0 + 3 = 3, a fifth is 0
    assert_eq!(center_preference(&b, Piece::Player), 0);
    assert_eq!(center_preference(&b, Piece::Empty), 0);
}

#[test]
fn center_preference_on_even_width() {
    // four columns: the middle is column 2, the weights are 0 1 2 1
    let start = BitBoard::new(6, 4, 4);
    let b = drops(
        &start,
        &[
            (2, Piece::Player),
            (2, Piece::Player),
            (2, Piece::Player),
            (3, Piece::Player),
            (1, Piece::Player),
            (0, Piece::Player),
        ],
    );
    // 2 + 2 + 2 + 1 + 1 + 0 = 8, a fifth is 1
    assert_eq!(center_preference(&b, Piece::Player), 1);
}

#[test]
fn evaluate_adds_runs_and_center() {
    let b = drops(&BitBoard::new(6, 7, 4), &[(3, Piece::AI), (3, Piece::AI)]);
    // one open end of a run of two at weight 100, center 6 / 5 = 1
    assert_eq!(evaluate_heuristic(&b, Piece::AI), 101);
    assert_eq!(evaluate_heuristic(&b, Piece::Player), -101);
    assert_eq!(evaluate_heuristic(&b, Piece::Empty), 0);
}

#[test]
fn evaluate_subtracts_the_center_term_of_the_other_side() {
    // five Player pieces in the middle column and none of AI, no runs of AI
    let start = BitBoard::new(6, 7, 5);
    let b = drops(&start, &[(3, Piece::Player), (3, Piece::AI), (3, Piece::Player)]);
    // no run of two of either side; center: Player 6 / 5 = 1, AI 3 / 5 = 0
    assert_eq!(evaluate_heuristic(&b, Piece::Player), 1);
    assert_eq!(evaluate_heuristic(&b, Piece::AI), -1);
}

#[test]
fn evaluate_of_an_empty_board_is_zero() {
    let b = BitBoard::new(6, 7, 4);
    assert_eq!(evaluate_heuristic(&b, Piece::AI), 0);
    assert_eq!(evaluate_heuristic(&b, Piece::Player), 0);
}

#[test]
fn evaluate_of_a_won_board_is_the_sentinel() {
    let b = drops(
        &BitBoard::new(6, 7, 4),
        &[(0, Piece::AI), (0, Piece::AI), (0, Piece::AI), (0, Piece::AI)],
    );
    assert_eq!(evaluate_heuristic(&b, Piece::AI), 1_000_000);
    assert_eq!(evaluate_heuristic(&b, Piece::Player), -1_000_000);
}

#[test]
fn three_in_a_column_is_one_threat_and_no_fork() {
    let b = drops(&BitBoard::new(6, 7, 4), &[(3, Piece::AI), (3, Piece::AI), (3, Piece::AI)]);
    // slots 21, 22, 23. The run of three has the open end 24, weight 1000.
    // Of the runs of two, 22-23 has the open end 24, weight 100. One cell
    // completes a line: no fork. Center 9 / 5 = 1.
    assert_eq!(count_unblocked_sequences(&b, b.ai_mask, b.player_mask, 3), 1);
    assert_eq!(count_unblocked_sequences(&b, b.ai_mask, b.player_mask, 2), 1);
    assert_eq!(sorted(find_threat_cells(&b, b.ai_mask, b.player_mask, 3)), vec![24]);
    assert_eq!(evaluate_heuristic(&b, Piece::AI), 1000 + 100 + 1);
    assert_eq!(evaluate_heuristic(&b, Piece::Player), -(1000 + 100 + 1));
}

#[test]
fn three_in_a_row_open_on_both_sides_is_a_fork() {
    let b = drops(&BitBoard::new(6, 7, 4), &[(2, Piece::AI), (3, Piece::AI), (4, Piece::AI)]);
    // slots 14, 21, 28: the ends are the cells 7 and 35.
    assert_eq!(sorted(find_threat_cells(&b, b.ai_mask, b.player_mask, 3)), vec![7, 35]);
    assert_eq!(count_unblocked_sequences(&b, b.ai_mask, b.player_mask, 3), 2);
    // runs of two: 14-21 has the end 7, 21-28 the end 35, along the row.
    // Each piece alone makes no run of two in another direction.
    assert_eq!(count_unblocked_sequences(&b, b.ai_mask, b.player_mask, 2), 2);
    // center: 2 + 3 + 2 = 7, a fifth is 1
    assert_eq!(evaluate_heuristic(&b, Piece::AI), 2000 + 200 + 5000 + 1);
    assert_eq!(evaluate_heuristic(&b, Piece::Player), -(2000 + 200 + 5000 + 1));
}

#[test]
fn weights_follow_the_win_length() {
    // with five to win, a run of two weighs 10 and a run of three 100
    let b = drops(&BitBoard::new(6, 7, 5), &[(0, Piece::AI), (0, Piece::AI)]);
    // slots 0 and 1: the open end is slot 2; no slot lies before slot 0
    assert_eq!(count_unblocked_sequences(&b, b.ai_mask, b.player_mask, 2), 1);
    assert_eq!(evaluate_heuristic(&b, Piece::AI), 10);
    let b = b.drop_piece(0, Piece::AI).unwrap();
    // run of three: end 3, weight 100; runs of two: 0-1 blocked by own piece
    // above, 1-2 has the open end 3, weight 10
    assert_eq!(evaluate_heuristic(&b, Piece::AI), 100 + 10);
}
