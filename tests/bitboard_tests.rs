use connect4::bitboard::Bitboard;
use connect4::board::Token;
use connect4::evaluation::{alpha_beta, analyze, minimax, ILLEGAL_MOVE, SIZE};

#[test]
fn move_test() {
    let mut bitboard = Bitboard::new();

    bitboard.make_move(0);
    assert!(bitboard.boards[0] == 0b1);

    bitboard.make_move(0);
    assert!(bitboard.boards[0] == 0b1);
    assert!(bitboard.boards[1] == 0b10);
}

#[test]
fn undo_test() {
    let mut bitboard = Bitboard::new();
    bitboard.make_move(0);
    bitboard.make_move(0);
    bitboard.undo_move();
    bitboard.undo_move();
    assert!(bitboard.boards[0] == 0b0);
    assert!(bitboard.boards[1] == 0b0);
}

#[test]
fn bitboard_check_win_test() {
    let mut bitboard = Bitboard::new();
    assert!(bitboard.has_won() == false);
    for col in 0..3 {
        bitboard.make_move(col);
        bitboard.make_move(0);
    }

    bitboard.make_move(3);
    assert!(bitboard.has_won());
}

#[test]
fn move_list_test() {
    let mut bitboard = Bitboard::new();
    assert!(bitboard.list_moves().into_iter().eq(0..7));
    bitboard.height.iter_mut().for_each(|h| *h += 6);
    assert!(bitboard.list_moves().is_empty());
}

#[test]
fn evaluation_basic_eval_test() {
    let board = Bitboard::from_moves("41245376333225777136115215667766214").unwrap();

    let minimax_result = analyze(board.clone(), |mut b| minimax(&mut b));
    let alpha_beta_result = analyze(board, |mut b| alpha_beta(&mut b, -SIZE, SIZE));

    assert_eq!(minimax_result, [100, 0, 4, -7, 4, 100, 100]);
    assert_eq!(minimax_result, alpha_beta_result);
}

#[test]
fn bitboard_moves_and_cells() {
    let board = Bitboard::from_moves("4455").unwrap();
    assert_eq!(board.moves(), vec![3, 3, 4, 4]);
    assert_eq!(board.move_count(), 4);
    assert_eq!(board.get(5, 3), Token::Red);
    assert_eq!(board.get(4, 3), Token::Yellow);
    assert_eq!(board.get(5, 0), Token::Empty);
    assert_eq!(board.boards(), &[(1u64 << 21) | (1u64 << 28), (1u64 << 22) | (1u64 << 29)]);
}

#[test]
fn bitboard_from_moves_rejects() {
    assert!(Bitboard::from_moves("0").is_none());
    assert!(Bitboard::from_moves("8").is_none());
    assert!(Bitboard::from_moves("1x").is_none());
    assert!(Bitboard::from_moves("1111111").is_none());
    assert!(Bitboard::from_moves("111111").is_some());
    assert!(Bitboard::from_moves("").is_some());
}

#[test]
fn bitboard_list_moves_skips_full_column() {
    let board = Bitboard::from_moves("333333").unwrap();
    assert_eq!(board.list_moves(), vec![0, 1, 3, 4, 5, 6]);
}

// A full board without four in a row, in 1-based column digits.
const FULL_DRAW: &str = "133124425775633614412772533564461771225566";

#[test]
fn minimax_full_board_is_draw() {
    let mut board = Bitboard::from_moves(FULL_DRAW).unwrap();
    assert!(!board.has_won());
    assert_eq!(minimax(&mut board), 0);
    assert_eq!(alpha_beta(&mut board, -SIZE, SIZE), 0);
    assert_eq!(analyze(board, |mut b| minimax(&mut b)), [ILLEGAL_MOVE; 7]);
}

#[test]
fn minimax_last_moves_draw() {
    let mut board = Bitboard::from_moves(&FULL_DRAW[..40]).unwrap();
    assert_eq!(minimax(&mut board), 0);
    assert_eq!(board.move_count(), 40);
    assert_eq!(
        analyze(board, |mut b| alpha_beta(&mut b, -SIZE, SIZE)),
        [100, 100, 100, 100, 100, 0, 100]
    );
}

#[test]
fn minimax_scores_a_win() {
    // red wins in column 1 with the seventh stone: 36 for red
    let mut board = Bitboard::from_moves("1212121").unwrap();
    assert!(board.has_won());
    assert_eq!(minimax(&mut board), SIZE + 1 - 7);
    assert_eq!(alpha_beta(&mut board, -SIZE, SIZE), SIZE + 1 - 7);
    assert_eq!(board.move_count(), 7);
    // yellow wins in column 2 with the eighth stone: -35 for red
    let mut board = Bitboard::from_moves("32425272").unwrap();
    assert!(board.has_won());
    assert_eq!(minimax(&mut board), -(SIZE + 1 - 8));
}

#[test]
fn alpha_beta_window_bounds() {
    let mut board = Bitboard::from_moves("1212121").unwrap();
    // the value 36 lies above the window: the result is a lower bound above it
    let r = alpha_beta(&mut board, -5, 5);
    assert!(r > 5 && r <= 36);
}

#[test]
fn alpha_beta_any_window() {
    let mut board = Bitboard::from_moves(&FULL_DRAW[..36]).unwrap();
    let exact = minimax(&mut board);
    assert_eq!(alpha_beta(&mut board, i32::MIN, i32::MAX), exact);
    assert_eq!(alpha_beta(&mut board, -43, 43), exact);
    // a window above every score gives an upper bound below it
    let r = alpha_beta(&mut board, 50, 60);
    assert!(r < 50 && exact <= r);
}
