use connect_n::bitboard::{BitBoard, Piece};
use connect_n::board::Board;
use connect_n::game::Game;
use connect_n::terminal::{
    get_conjugate_value, is_valid_column_count, is_valid_difficulty, is_valid_geometry,
    is_valid_row_count, is_valid_win_length, mode_for_answer, player_starts_for_answer, Mode,
};
use connect_n::turn::{play_move, Played};
use connect_n::ui::Connect4App;

fn drops(board: &BitBoard, moves: &[(u8, Piece)]) -> BitBoard {
    let mut b = board.clone();
    for &(col, piece) in moves {
        b = b.drop_piece(col, piece).unwrap();
    }
    b
}

#[test]
fn difficulty_is_between_one_and_ten() {
    assert!(!is_valid_difficulty(0));
    assert!(is_valid_difficulty(1));
    assert!(is_valid_difficulty(8));
    assert!(is_valid_difficulty(10));
    assert!(!is_valid_difficulty(11));
    assert!(!is_valid_difficulty(255));
}

#[test]
fn conjugate_value_is_the_most_columns() {
    assert_eq!(get_conjugate_value(6), 17);
    assert_eq!(get_conjugate_value(2), 41);
    assert_eq!(get_conjugate_value(20), 5);
    assert_eq!(get_conjugate_value(63), 1);
    assert_eq!(get_conjugate_value(127), 0);
    assert_eq!(get_conjugate_value(0), 127);
}

#[test]
fn sizes_are_checked_one_after_the_other() {
    assert!(!is_valid_row_count(1));
    assert!(is_valid_row_count(2));
    assert!(is_valid_row_count(20));
    assert!(!is_valid_row_count(21));
    assert!(!is_valid_column_count(1, 6));
    assert!(is_valid_column_count(2, 6));
    assert!(is_valid_column_count(17, 6));
    assert!(!is_valid_column_count(18, 6));
    assert!(!is_valid_win_length(1, 6, 7));
    assert!(is_valid_win_length(2, 6, 7));
    assert!(is_valid_win_length(6, 6, 7));
    assert!(!is_valid_win_length(7, 6, 7));
    assert!(is_valid_win_length(5, 7, 5));
    assert!(!is_valid_win_length(6, 7, 5));
}

#[test]
fn accepted_sizes_can_be_built() {
    for rows in 2..=20u8 {
        for cols in 2..=get_conjugate_value(rows) {
            assert!(is_valid_column_count(cols, rows));
            for connect in 2..=rows.min(cols) {
                assert!(is_valid_win_length(connect, rows, cols));
                assert!(is_valid_geometry(rows, cols, connect));
            }
        }
    }
}

#[test]
fn geometry_needs_room_for_the_spare_slots() {
    assert!(is_valid_geometry(6, 7, 4));
    assert!(is_valid_geometry(63, 2, 2));
    assert!(!is_valid_geometry(64, 2, 2));
    assert!(is_valid_geometry(7, 16, 4));
    assert!(!is_valid_geometry(7, 17, 4));
    assert!(!is_valid_geometry(6, 7, 1));
    assert!(!is_valid_geometry(6, 7, 7));
    assert!(!is_valid_geometry(3, 7, 4));
    assert!(!is_valid_geometry(255, 255, 2));
    assert!(!is_valid_geometry(0, 0, 0));
}

#[test]
fn mode_answers() {
    assert!(mode_for_answer(b"y") == Some(Mode::Ui));
    assert!(mode_for_answer(b"n") == Some(Mode::Terminal));
    assert!(mode_for_answer(b"") == Some(Mode::Ui));
    assert!(mode_for_answer(b"x") == None);
    assert!(mode_for_answer(b"yes") == None);
    assert!(mode_for_answer(b"Y") == None);
}

#[test]
fn first_player_answers() {
    assert_eq!(player_starts_for_answer(b"j"), Some(true));
    assert_eq!(player_starts_for_answer(b"a"), Some(false));
    assert_eq!(player_starts_for_answer(b""), Some(true));
    assert_eq!(player_starts_for_answer(b"ja"), None);
    assert_eq!(player_starts_for_answer(b"y"), None);
}

#[test]
fn play_move_tells_how_the_game_stands() {
    let start = BitBoard::new(2, 2, 2);
    match play_move(&start, 0, Piece::Player) {
        Played::Next(b, side) => {
            assert_eq!(side, Piece::AI);
            assert_eq!(b.get_piece(0, 0), Piece::Player);
            match play_move(&b, 0, Piece::AI) {
                Played::Next(b, side) => {
                    assert_eq!(side, Piece::Player);
                    assert!(matches!(play_move(&b, 0, Piece::Player), Played::ColumnFull));
                    assert!(matches!(play_move(&b, 1, Piece::Player), Played::Won(_)));
                },
                _ => panic!("the game should go on"),
            }
        },
        _ => panic!("the game should go on"),
    }
    let nearly_full = drops(
        &BitBoard::new(3, 3, 3),
        &[
            (0, Piece::Player),
            (0, Piece::AI),
            (0, Piece::Player),
            (1, Piece::Player),
            (1, Piece::AI),
            (1, Piece::Player),
            (2, Piece::AI),
            (2, Piece::Player),
        ],
    );
    assert!(matches!(play_move(&nearly_full, 2, Piece::AI), Played::Draw(_)));
}

#[test]
fn a_click_moves_for_the_player_and_queues_the_machine() {
    let mut app = Connect4App::new(BitBoard::new(6, 7, 4), 2, true);
    assert_eq!(app.current, Piece::Player);
    assert!(!app.game_over);
    assert!(!app.ai_move_queued);
    assert_eq!(app.message, "");
    assert!(app.click(3));
    assert_eq!(app.game_state.get_piece(0, 3), Piece::Player);
    assert_eq!(app.current, Piece::AI);
    assert!(app.ai_move_queued);
    // a second click is ignored while the machine is to move
    assert!(!app.click(3));
    assert_eq!(app.game_state.get_piece(1, 3), Piece::Empty);
    app.ai_turn();
    assert!(!app.ai_move_queued);
    assert_eq!(app.current, Piece::Player);
    assert!(!app.game_over);
    assert_eq!(app.game_state.ai_mask.count_ones(), 1);
    // a frame with nothing queued changes nothing
    let before = app.game_state.ai_mask;
    app.ai_turn();
    assert_eq!(app.game_state.ai_mask, before);
    assert_eq!(app.difficulty, 2);
}

#[test]
fn a_winning_click_ends_the_game() {
    let b = drops(
        &BitBoard::new(6, 7, 4),
        &[(0, Piece::Player), (0, Piece::Player), (0, Piece::Player)],
    );
    let mut app = Connect4App::new(b, 3, true);
    assert!(!app.click(0));
    assert!(app.game_over);
    assert_eq!(app.message, "You win!");
    assert_eq!(app.current, Piece::Player);
    assert!(!app.ai_move_queued);
    // nothing moves after the end
    assert!(!app.click(1));
    assert_eq!(app.game_state.get_piece(0, 1), Piece::Empty);
}

#[test]
fn a_click_on_a_full_column_is_ignored() {
    let b = drops(&BitBoard::new(2, 3, 2), &[(0, Piece::Player), (0, Piece::AI)]);
    let mut app = Connect4App::new(b, 1, true);
    assert!(!app.click(0));
    assert_eq!(app.current, Piece::Player);
    assert!(!app.game_over);
    assert!(!app.ai_move_queued);
}

#[test]
fn the_machine_takes_its_win() {
    let b = drops(
        &BitBoard::new(6, 7, 4),
        &[(6, Piece::AI), (6, Piece::AI), (6, Piece::AI), (0, Piece::Player)],
    );
    let mut app = Connect4App::new(b, 2, true);
    assert!(app.click(1));
    app.ai_turn();
    assert!(app.game_over);
    assert_eq!(app.message, "AI wins!");
    assert_eq!(app.game_state.get_piece(3, 6), Piece::AI);
    assert_eq!(app.current, Piece::AI);
}

#[test]
fn the_last_piece_without_a_line_is_a_draw() {
    let b = drops(
        &BitBoard::new(3, 3, 3),
        &[
            (0, Piece::Player),
            (0, Piece::AI),
            (0, Piece::Player),
            (1, Piece::Player),
            (1, Piece::AI),
            (1, Piece::Player),
            (2, Piece::AI),
        ],
    );
    let mut app = Connect4App::new(b, 2, true);
    assert!(app.click(2));
    app.ai_turn();
    assert!(app.game_over);
    assert_eq!(app.message, "It's a draw!");
    assert!(app.game_state.is_full());
}

#[test]
fn a_search_of_depth_zero_finds_no_move() {
    let mut app = Connect4App::new(BitBoard::new(6, 7, 4), 0, true);
    assert!(app.click(0));
    app.ai_turn();
    assert!(app.game_over);
    assert_eq!(app.message, "AI has no valid moves!");
    assert!(!app.ai_move_queued);
}

#[test]
fn the_machine_does_not_move_unasked() {
    let mut app = Connect4App::new(BitBoard::new(6, 7, 4), 2, false);
    assert_eq!(app.current, Piece::AI);
    app.ai_turn();
    assert_eq!(app.game_state.ai_mask, 0);
    assert!(!app.click(0));
    assert_eq!(app.game_state.player_mask, 0);
}

#[test]
fn bare_board_and_game_start_empty() {
    let b = Board::new();
    assert_eq!(b.player_boards, [0, 0]);
    let g = Game::new((7, 6));
    assert_eq!(g.size, (7, 6));
    assert_eq!(g.difficulty, 0);
    assert_eq!(g.board.player_boards, [0, 0]);
}

#[test]
fn game_symbols_follow_the_masks() {
    let mut g = Game::new((7, 6));
    g.board.player_boards[0] = 1 << 8;
    g.board.player_boards[1] = (1 << 9) | (1 << 8);
    assert_eq!(g.cell_symbol(1, 1), 'X');
    assert_eq!(g.cell_symbol(1, 2), 'O');
    assert_eq!(g.cell_symbol(1, 0), '.');
    assert_eq!(g.cell_symbol(0, 0), '.');
    assert_eq!(g.cell_symbol(18, 1), '.');
}

#[test]
fn game_text_has_rows_rule_and_numbers() {
    let mut g = Game::new((3, 2));
    assert_eq!(g.to_text(), ".  .  .  \n.  .  .  \n--------\n0  1  2  ");
    g.board.player_boards[0] = 1 | (1 << 14);
    g.board.player_boards[1] = (1 << 1) | (1 << 7);
    assert_eq!(g.to_text(), "O  .  .  \nX  O  X  \n--------\n0  1  2  ");
}

#[test]
fn game_text_pads_numbers_past_nine_with_one_blank() {
    let g = Game::new((12, 0));
    assert_eq!(
        g.to_text(),
        format!("{}\n0  1  2  3  4  5  6  7  8  9  10 11 ", "-".repeat(35))
    );
}
