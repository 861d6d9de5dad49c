use connect4::board::Board;
use connect4::move_sorter::MoveSorter;
use connect4::solver::{Solver, ILLEGAL_MOVE};
use connect4::trans_table::{TransTable, KEY_LIMIT};
use connect4::{MAX_SCORE, MIN_SCORE};

// A full board without four in a row, in 0-based column digits.
const FULL_DRAW: &str = "022013314664522503301661422453350660114455";

#[test]
fn solver_basic_eval_test() {
    let board = Board::from_moves("33333344226000000666664").unwrap();

    let result = Solver::new(8).analyze(board);

    assert_eq!(
        result,
        [ILLEGAL_MOVE, -18, -18, ILLEGAL_MOVE, -18, -18, ILLEGAL_MOVE]
    );
}

#[test]
fn analyze_immediate_win_is_best() {
    // column 6 is full; red has three in column 1, yellow three in columns 2 and 3
    let board = Board::from_moves("666666121212034353").unwrap();
    let mut solver = Solver::new(64);
    let result = solver.analyze(board);
    assert_eq!(result, [-23, 24, -23, -23, -23, -23, ILLEGAL_MOVE]);
    assert_eq!(result[1], MAX_SCORE - 19);
}

#[test]
fn analyze_after_win_marks_every_column() {
    let board = Board::from_moves("0101010").unwrap();
    assert_eq!(Solver::new(8).analyze(board), [ILLEGAL_MOVE; 7]);
}

#[test]
fn analyze_full_board() {
    let board = Board::from_moves(FULL_DRAW).unwrap();
    assert!(!board.has_won());
    assert_eq!(Solver::new(8).analyze(board), [ILLEGAL_MOVE; 7]);
}

#[test]
fn analyze_last_stone_is_draw() {
    let board = Board::from_moves(&FULL_DRAW[..41]).unwrap();
    let mut solver = Solver::new(8);
    assert_eq!(solver.analyze(board), [100, 100, 100, 100, 100, 0, 100]);
    // the full board is terminal: one node, no deeper search
    assert_eq!(solver.explored_nodes(), 1);
}

#[test]
fn analyze_last_two_stones_draw() {
    let board = Board::from_moves(&FULL_DRAW[..40]).unwrap();
    let mut solver = Solver::new(8);
    assert_eq!(solver.analyze(board), [100, 100, 100, 100, 100, 0, 100]);
    assert_eq!(solver.explored_nodes(), 1);
}

#[test]
fn solver_short_endgame() {
    // four empty cells left: columns 4 and 5 hold two each
    let board = Board::from_moves(&FULL_DRAW[..38]).unwrap();
    let mut solver = Solver::new(1024);
    let first = solver.analyze(board);
    assert_eq!(first, [100, 100, 100, 100, 0, 0, 100]);
    assert!(solver.explored_nodes() > 0);
    // the table persists across calls and does not change the result
    let again = solver.analyze(board);
    assert_eq!(first, again);
    solver.reset();
    assert_eq!(solver.explored_nodes(), 0);
    assert_eq!(solver.analyze(board), first);
}

#[test]
fn trans_table_round_trip() {
    let mut table = TransTable::new(7);
    let keys = [0u64, 1, 6, 123_456_789, KEY_LIMIT - 1];
    for &key in keys.iter() {
        for value in [MIN_SCORE, -1, 0, 17, MAX_SCORE] {
            for is_upper in [false, true] {
                table.put(key, value, is_upper);
                assert_eq!(table.get(key), (value, is_upper));
            }
        }
    }
}

#[test]
fn trans_table_miss_and_overwrite() {
    let mut table = TransTable::new(4);
    table.put(5, 12, false);
    // 9 shares the bucket of 5 but is not stored
    assert_eq!(table.get(9), (MAX_SCORE, true));
    table.put(9, -3, true);
    assert_eq!(table.get(9), (-3, true));
    assert_eq!(table.get(5), (MAX_SCORE, true));
    table.clear();
    assert_eq!(table.get(9), (MAX_SCORE, true));
    // a cleared bucket holds key 0 with the lowest score as a lower bound
    assert_eq!(table.get(0), (MIN_SCORE, false));
}

#[test]
fn move_sorter_order() {
    let mut sorter = MoveSorter::new();
    sorter.add(0, 1);
    sorter.add(1, 3);
    sorter.add(2, 2);
    sorter.add(4, 3);
    assert_eq!(sorter.next(), Some(4));
    assert_eq!(sorter.next(), Some(1));
    assert_eq!(sorter.next(), Some(2));
    assert_eq!(sorter.next(), Some(0));
    assert_eq!(sorter.next(), None);
}

#[test]
fn move_sorter_full() {
    let mut sorter = MoveSorter::new();
    for col in 0..7 {
        sorter.add(col, (7 - col) as u32);
    }
    for col in 0..7 {
        assert_eq!(sorter.next(), Some(col));
    }
    assert_eq!(sorter.next(), None);
}

#[test]
fn solver_agrees_with_minimax() {
    // the position of the exhaustive-search test, in 0-based digits; yellow is to move,
    // so the solver's scores are the negated red-perspective minimax scores
    let moves = "30134265222114666025004104556655103";
    for capacity in [1usize, 7, 1024] {
        let mut solver = Solver::new(capacity);
        let board = Board::from_moves(moves).unwrap();
        assert_eq!(solver.analyze(board), [100, 0, -4, 7, -4, 100, 100]);
        // stale entries from the first search do not change the second
        assert_eq!(solver.analyze(board), [100, 0, -4, 7, -4, 100, 100]);
    }
}
