use connect_n::bitboard::{BitBoard, Piece};

fn drops(board: &BitBoard, moves: &[(u8, Piece)]) -> BitBoard {
    let mut b = board.clone();
    for &(col, piece) in moves {
        b = b.drop_piece(col, piece).unwrap();
    }
    b
}

#[test]
fn new_board_is_empty() {
    let b = BitBoard::new(6, 7, 4);
    assert_eq!(b.player_mask, 0);
    assert_eq!(b.ai_mask, 0);
    assert_eq!(b.heights, vec![0u8; 7]);
    assert_eq!((b.rows, b.cols, b.connect), (6, 7, 4));
    for r in 0..6 {
        for c in 0..7 {
            assert_eq!(b.get_piece(r, c), Piece::Empty);
        }
    }
    assert!(!b.is_full());
    assert!(!b.check_win(Piece::Player));
    assert!(!b.check_win(Piece::AI));
}

#[test]
fn drop_sets_the_slot_on_top_of_the_column() {
    let b = BitBoard::new(6, 7, 4);
    let b1 = b.drop_piece(3, Piece::AI).unwrap();
    assert_eq!(b1.ai_mask, 1u128 << 21);
    assert_eq!(b1.player_mask, 0);
    assert_eq!(b1.heights, vec![0, 0, 0, 1, 0, 0, 0]);
    let b2 = b1.drop_piece(3, Piece::Player).unwrap();
    assert_eq!(b2.ai_mask, 1u128 << 21);
    assert_eq!(b2.player_mask, 1u128 << 22);
    assert_eq!(b2.heights, vec![0, 0, 0, 2, 0, 0, 0]);
    assert_eq!(b2.get_piece(0, 3), Piece::AI);
    assert_eq!(b2.get_piece(1, 3), Piece::Player);
    assert_eq!(b2.get_piece(2, 3), Piece::Empty);
    assert_eq!(b2.get_piece(0, 2), Piece::Empty);
}

#[test]
fn drop_leaves_the_old_board_as_it_was() {
    let b = BitBoard::new(6, 7, 4);
    let _ = b.drop_piece(0, Piece::Player).unwrap();
    assert_eq!(b.player_mask, 0);
    assert_eq!(b.heights, vec![0u8; 7]);
}

#[test]
fn masks_stay_disjoint_and_inside_their_columns() {
    let start = BitBoard::new(6, 7, 4);
    let mut b = start.clone();
    let order: [u8; 20] = [3, 3, 2, 4, 4, 2, 0, 6, 6, 6, 1, 5, 3, 3, 0, 0, 1, 5, 5, 2];
    for (n, &col) in order.iter().enumerate() {
        let piece = if n % 2 == 0 { Piece::Player } else { Piece::AI };
        b = b.drop_piece(col, piece).unwrap();
        assert_eq!(b.player_mask & b.ai_mask, 0);
        let occupied = b.player_mask | b.ai_mask;
        for c in 0..7u32 {
            let h = b.heights[c as usize] as u32;
            assert!(h <= 6);
            for r in 0..7u32 {
                let set = (occupied >> (c * 7 + r)) & 1 == 1;
                assert_eq!(set, r < h);
            }
        }
        assert_eq!(occupied >> 49, 0);
    }
}

#[test]
fn drop_on_full_column_fails_and_changes_nothing() {
    let start = BitBoard::new(6, 7, 4);
    let b = drops(
        &start,
        &[
            (2, Piece::Player),
            (2, Piece::AI),
            (2, Piece::Player),
            (2, Piece::AI),
            (2, Piece::Player),
            (2, Piece::AI),
        ],
    );
    assert!(!b.is_valid_location(2));
    let player_mask = b.player_mask;
    let ai_mask = b.ai_mask;
    let heights = b.heights.clone();
    assert!(b.drop_piece(2, Piece::Player).is_none());
    assert!(b.drop_piece(2, Piece::AI).is_none());
    assert_eq!(b.player_mask, player_mask);
    assert_eq!(b.ai_mask, ai_mask);
    assert_eq!(b.heights, heights);
    for r in 0..6 {
        let expected = if r % 2 == 0 { Piece::Player } else { Piece::AI };
        assert_eq!(b.get_piece(r, 2), expected);
    }
}

#[test]
fn valid_locations_are_ascending_and_skip_full_columns() {
    let start = BitBoard::new(2, 4, 2);
    assert_eq!(start.get_valid_locations(), vec![0, 1, 2, 3]);
    let b = drops(&start, &[(1, Piece::Player), (1, Piece::AI), (3, Piece::AI)]);
    assert_eq!(b.get_valid_locations(), vec![0, 2, 3]);
    assert!(b.is_valid_location(0));
    assert!(!b.is_valid_location(1));
    assert!(b.is_valid_location(3));
}

#[test]
fn full_board_is_full() {
    let start = BitBoard::new(2, 2, 2);
    let b = drops(&start, &[(0, Piece::Player), (0, Piece::AI), (1, Piece::AI)]);
    assert!(!b.is_full());
    let b = b.drop_piece(1, Piece::Player).unwrap();
    assert!(b.is_full());
    assert_eq!(b.get_valid_locations(), Vec::<u8>::new());
}

#[test]
fn four_in_column_zero_wins_for_that_side_only() {
    for side in [Piece::Player, Piece::AI] {
        let other = if side == Piece::Player { Piece::AI } else { Piece::Player };
        let mut board = BitBoard::new(6, 7, 4);
        for n in 0..4 {
            assert!(!board.check_win(side), "after {} pieces", n);
            board = board.drop_piece(0, side).unwrap();
        }
        assert!(board.check_win(side));
        assert!(!board.check_win(other));
    }
}

#[test]
fn top_of_one_column_does_not_join_bottom_of_the_next() {
    let start = BitBoard::new(6, 7, 4);
    let b = drops(
        &start,
        &[
            (0, Piece::Player),
            (0, Piece::Player),
            (0, Piece::AI),
            (0, Piece::Player),
            (0, Piece::Player),
            (0, Piece::AI),
            (1, Piece::AI),
            (1, Piece::AI),
            (1, Piece::AI),
        ],
    );
    assert_eq!(b.get_piece(5, 0), Piece::AI);
    assert_eq!(b.get_piece(0, 1), Piece::AI);
    assert_eq!(b.get_piece(1, 1), Piece::AI);
    assert_eq!(b.get_piece(2, 1), Piece::AI);
    assert!(!b.check_win(Piece::AI));
    assert!(!b.check_win(Piece::Player));
}

#[test]
fn full_column_and_start_of_next_is_no_win_for_short_lines() {
    // Two rows, win length two: the top of column 0 and the bottom of column 1
    // are neighbouring cells only along the falling diagonal.
    let start = BitBoard::new(2, 3, 2);
    let b = drops(&start, &[(0, Piece::Player), (0, Piece::AI), (2, Piece::AI)]);
    assert!(!b.check_win(Piece::AI));
    let b = drops(&start, &[(0, Piece::Player), (0, Piece::AI), (1, Piece::AI)]);
    assert!(b.check_win(Piece::AI));
}

#[test]
fn horizontal_line_wins() {
    let start = BitBoard::new(6, 7, 4);
    let b = drops(&start, &[(1, Piece::Player), (2, Piece::Player), (3, Piece::Player)]);
    assert!(!b.check_win(Piece::Player));
    let b = b.drop_piece(4, Piece::Player).unwrap();
    assert!(b.check_win(Piece::Player));
    assert!(!b.check_win(Piece::AI));
}

#[test]
fn rising_diagonal_wins() {
    let start = BitBoard::new(6, 7, 4);
    let b = drops(
        &start,
        &[
            (0, Piece::AI),
            (1, Piece::Player),
            (1, Piece::AI),
            (2, Piece::Player),
            (2, Piece::Player),
            (2, Piece::AI),
            (3, Piece::Player),
            (3, Piece::Player),
            (3, Piece::Player),
        ],
    );
    assert!(!b.check_win(Piece::AI));
    assert!(!b.check_win(Piece::Player));
    let b = b.drop_piece(3, Piece::AI).unwrap();
    assert!(b.check_win(Piece::AI));
    assert!(!b.check_win(Piece::Player));
}

#[test]
fn falling_diagonal_wins() {
    let start = BitBoard::new(6, 7, 4);
    let b = drops(
        &start,
        &[
            (6, Piece::AI),
            (5, Piece::Player),
            (5, Piece::AI),
            (4, Piece::Player),
            (4, Piece::Player),
            (4, Piece::AI),
            (3, Piece::Player),
            (3, Piece::Player),
            (3, Piece::Player),
            (3, Piece::AI),
        ],
    );
    assert!(b.check_win(Piece::AI));
    assert!(!b.check_win(Piece::Player));
}

#[test]
fn empty_never_wins() {
    let b = BitBoard::new(6, 7, 4);
    assert!(!b.check_win(Piece::Empty));
    let b = drops(&b, &[(0, Piece::AI), (0, Piece::AI), (0, Piece::AI), (0, Piece::AI)]);
    assert!(!b.check_win(Piece::Empty));
}

#[test]
fn win_length_two_on_smallest_board() {
    let start = BitBoard::new(2, 2, 2);
    let b = drops(&start, &[(0, Piece::Player), (1, Piece::Player)]);
    assert!(b.check_win(Piece::Player));
    let b = drops(&start, &[(0, Piece::Player), (1, Piece::AI)]);
    assert!(!b.check_win(Piece::Player));
    assert!(!b.check_win(Piece::AI));
}

#[test]
fn widest_board_uses_the_last_slot_below_the_spare_one() {
    // 63 rows and 2 columns fill all 128 slots, spare slots included.
    let mut b = BitBoard::new(63, 2, 2);
    for n in 0..63 {
        let piece = if n % 2 == 0 { Piece::Player } else { Piece::AI };
        b = b.drop_piece(1, piece).unwrap();
    }
    assert!(b.drop_piece(1, Piece::AI).is_none());
    assert_eq!(b.get_piece(62, 1), Piece::Player);
    assert_eq!(b.player_mask >> 126, 1);
    assert_eq!(b.ai_mask >> 126, 0);
    assert!(!b.check_win(Piece::Player));
    assert!(!b.check_win(Piece::AI));
}

#[test]
fn can_win_next_move_sees_a_winning_drop() {
    let start = BitBoard::new(6, 7, 4);
    let b = drops(&start, &[(4, Piece::AI), (5, Piece::AI), (6, Piece::AI)]);
    assert!(b.can_win_next_move(Piece::AI));
    assert!(!b.can_win_next_move(Piece::Player));
    assert!(!b.can_win_next_move(Piece::Empty));
    let blocked = b.drop_piece(3, Piece::Player).unwrap();
    assert!(!blocked.can_win_next_move(Piece::AI));
    assert!(!start.can_win_next_move(Piece::AI));
}

#[test]
fn steps_are_the_four_slot_distances() {
    let b = BitBoard::new(6, 7, 4);
    assert_eq!(b.steps(), [1, 7, 6, 8]);
}

#[test]
fn text_shows_rows_from_the_top_and_numbers_below() {
    let start = BitBoard::new(2, 3, 2);
    assert_eq!(start.to_text(), "\n .  .  . \n .  .  . \n---------\n 0  1  2 \n");
    let b = drops(&start, &[(0, Piece::Player), (1, Piece::AI), (1, Piece::AI)]);
    assert_eq!(b.to_text(), "\n .  O  . \n X  O  . \n---------\n 0  1  2 \n");
}

#[test]
fn text_numbers_columns_past_nine() {
    let b = BitBoard::new(2, 12, 2);
    let text = b.to_text();
    let lines: Vec<&str> = text.split('\n').collect();
    assert_eq!(lines.len(), 6);
    assert_eq!(lines[0], "");
    assert_eq!(lines[1], " . ".repeat(12));
    assert_eq!(lines[3], "-".repeat(36));
    assert_eq!(lines[4], " 0  1  2  3  4  5  6  7  8  9  10  11 ");
    assert_eq!(lines[5], "");
}
