use connect4::bits::count_ones;
use connect4::board::{
    col_mask, non_losing_moves, possible_mask, winning_mask, Board, Token, BOTTOM, TOP,
};

#[test]
fn board_check_win_test() {
    // vertical |
    let board = Board::from_moves("0101010").unwrap();
    assert!(Board::is_win(board.boards[0]));
    assert!(!Board::is_win(board.boards[1]));

    // horizontal -
    let board = Board::from_moves("3323431").unwrap();
    assert!(Board::is_win(board.boards[0]));
    assert!(!Board::is_win(board.boards[1]));

    // diagonal /
    let board = Board::from_moves("01123223433").unwrap();
    assert!(Board::is_win(board.boards[0]));
    assert!(!Board::is_win(board.boards[1]));

    // diagonal \
    let board = Board::from_moves("35345445633").unwrap();
    assert!(Board::is_win(board.boards[0]));
    assert!(!Board::is_win(board.boards[1]));
}

#[test]
fn is_win_ignores_runs_across_columns() {
    // cells 3, 4, 5 of column 0 and cell 7 of column 1: the guard cell 6 breaks the run
    assert!(!Board::is_win((1 << 3) | (1 << 4) | (1 << 5) | (1 << 7)));
    assert!(!Board::is_win(0));
    assert!(Board::is_win(0b1111));
}

#[test]
fn has_won_checks_last_mover() {
    let board = Board::from_moves("0101010").unwrap();
    assert!(board.has_won());
    let board = Board::from_moves("010101").unwrap();
    assert!(!board.has_won());
}

#[test]
fn from_moves_rejects() {
    assert!(Board::from_moves("7").is_none());
    assert!(Board::from_moves("0a").is_none());
    assert!(Board::from_moves("0000000").is_none());
    // a move after a win
    assert!(Board::from_moves("01010101").is_none());
    assert!(Board::from_moves("000000").is_some());
}

#[test]
fn make_undo_round_trip() {
    let start = Board::from_moves("3342").unwrap();
    for col in 0..7 {
        let mut board = start;
        board.make_move(col);
        assert_eq!(board.move_count(), 5);
        assert_ne!(board.boards, start.boards);
        board.undo_move();
        assert_eq!(board.boards, start.boards);
        assert_eq!(board.heights, start.heights);
        assert_eq!(board.move_count(), start.move_count());
        assert_eq!(board.moves(), start.moves());
    }
}

#[test]
fn can_play_and_moves() {
    let board = Board::from_moves("000000123").unwrap();
    assert!(!board.can_play(0));
    assert!(board.can_play(1));
    assert_eq!(board.moves(), vec![0, 0, 0, 0, 0, 0, 1, 2, 3]);
    assert_eq!(board.move_count(), 9);
    assert_eq!(board.get(0, 0), Token::Yellow);
    assert_eq!(board.get(5, 0), Token::Red);
    assert_eq!(board.get(5, 1), Token::Red);
    assert_eq!(board.get(5, 2), Token::Yellow);
    assert_eq!(board.get(4, 1), Token::Empty);
}

#[test]
fn masks_of_empty_board() {
    let board = Board::new();
    assert_eq!(possible_mask(&board), BOTTOM);
    assert_eq!(board.key(), BOTTOM);
    assert_ne!(board.key(), 0);
    assert_eq!(non_losing_moves(&board), BOTTOM);
    assert_eq!(board.boards(), &[0, 0]);
    assert_eq!(TOP, BOTTOM << 6);
}

#[test]
fn possible_mask_and_key_after_moves() {
    let board = Board::from_moves("00").unwrap();
    assert_eq!(possible_mask(&board), (BOTTOM & !1) | (1 << 2));
    // occupied cells 0 and 1, plus the bottom row, plus red's stone
    assert_eq!(board.key(), (0b11 + BOTTOM) | 1);
    let full = Board::from_moves("000000").unwrap();
    assert_eq!(possible_mask(&full), BOTTOM & !1);
}

#[test]
fn col_mask_values() {
    assert_eq!(col_mask(0), 0b1111111);
    assert_eq!(col_mask(2), 0b1111111 << 14);
    assert_eq!(col_mask(6), 0b1111111 << 42);
}

#[test]
fn winning_mask_values() {
    // three stones at the bottom of column 0: the cell above wins
    assert_eq!(winning_mask(0b111), 1 << 3);
    // cells 0, 7, 14 of the bottom row: cell 21 wins
    assert_eq!(winning_mask((1 << 0) | (1 << 7) | (1 << 14)), 1 << 21);
    // cells 7, 14, 21: cells 0 and 28 win
    assert_eq!(winning_mask((1 << 7) | (1 << 14) | (1 << 21)), (1 << 0) | (1 << 28));
    // a gap: cells 0, 7, 21 make cell 14 winning
    assert_eq!(winning_mask((1 << 0) | (1 << 7) | (1 << 21)), 1 << 14);
    // rising diagonal 0, 8, 16: cell 24 wins
    assert_eq!(winning_mask((1 << 0) | (1 << 8) | (1 << 16)), 1 << 24);
    // guard cells never win: column 0 rows 3, 4, 5 point at the guard cell 6
    assert_eq!(winning_mask((1 << 3) | (1 << 4) | (1 << 5)) & TOP, 0);
    assert_eq!(winning_mask(0), 0);
    // only board cells: the falling diagonal 42, 35, 28 points at cell 21 and beyond the board
    assert_eq!(winning_mask((1 << 28) | (1 << 35) | (1 << 42)), 1 << 21);
    assert!(winning_mask(u64::MAX >> 15) < 1 << 49);
}

#[test]
fn non_losing_moves_two_threats() {
    // red holds bottom cells of columns 1, 2, 3: cells 0 and 28 both win for red
    let board = Board::from_moves("16263").unwrap();
    assert_eq!(non_losing_moves(&board), 0);
}

#[test]
fn non_losing_moves_one_threat() {
    // red holds bottom cells of columns 0, 1, 2: yellow must block cell 21
    let board = Board::from_moves("06162").unwrap();
    assert_eq!(non_losing_moves(&board), 1 << 21);
}

#[test]
fn non_losing_moves_avoid_cell_below_threat() {
    // red holds cells 1, 8, 15: cell 22 wins for red, so yellow must not play cell 21
    let board = Board::from_moves("6001122").unwrap();
    let safe = non_losing_moves(&board);
    assert_eq!(safe & (1 << 21), 0);
    assert_ne!(safe, 0);
}

#[test]
fn move_score_counts_winning_cells() {
    let board = Board::new();
    assert_eq!(board.move_score(3), 0);
    // red has 0 and 7 and plays column 2: bottom row 0, 7, 14 makes 21 winning
    let board = Board::from_moves("0616").unwrap();
    assert_eq!(board.move_score(2), 1);
    assert_eq!(count_ones(winning_mask((1 << 0) | (1 << 7) | (1 << 14))), 1);
}

#[test]
fn count_ones_values() {
    assert_eq!(count_ones(0), 0);
    assert_eq!(count_ones(u64::MAX), 64);
    assert_eq!(count_ones(0b1011), 3);
}
