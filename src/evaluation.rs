//! Exhaustive game-tree searches on `Bitboard`: plain minimax and minimax with
//! alpha-beta pruning. Scores are from red's point of view: a win with the `n`-th
//! stone scores `SIZE + 1 - n` for red and its negation for yellow.
use vstd::prelude::*;

use crate::bitboard::Bitboard;
use crate::bits::has_bit;
use crate::board::{column_height, count_col, filled, legal, lemma_legal_counts, stones, wins};

verus! {

/// Number of cells of the board.
pub const SIZE: i32 = 42;

/// Score of a column that cannot be played.
pub const ILLEGAL_MOVE: i32 = 100;

/// Red (the first player) moves after an even number of moves.
pub open spec fn red_to_move(hist: Seq<usize>) -> bool {
    hist.len() % 2 == 0
}

/// The player who made the last move of `hist` has four in a row.
pub open spec fn last_move_won(hist: Seq<usize>) -> bool {
    wins(stones(hist, (hist.len() + 1) as int % 2))
}

/// Game value of the position after `hist` with best play by both sides, from red's
/// point of view.
pub open spec fn minimax_value(hist: Seq<usize>) -> int
    decreases 42 - hist.len(), 8int,
{
    if last_move_won(hist) {
        if red_to_move(hist) {
            -(43 - hist.len())
        } else {
            43 - hist.len()
        }
    } else if hist.len() >= 42 {
        0
    } else {
        best_of_columns(hist, 7)
    }
}

/// Best value for the side to move over the open columns below `n`: the largest for
/// red, starting from `-SIZE`; the smallest for yellow, starting from `SIZE`.
pub open spec fn best_of_columns(hist: Seq<usize>, n: int) -> int
    decreases 42 - hist.len(), n,
{
    if n <= 0 || hist.len() >= 42 {
        if red_to_move(hist) {
            -42
        } else {
            42
        }
    } else {
        let v = best_of_columns(hist, n - 1);
        if count_col(hist, n - 1) < 6 {
            let c = minimax_value(hist.push((n - 1) as usize));
            if red_to_move(hist) {
                if c > v {
                    c
                } else {
                    v
                }
            } else {
                if c < v {
                    c
                } else {
                    v
                }
            }
        } else {
            v
        }
    }
}

/// A search result `r` of the window `alpha..=beta` against the game value `m`: exact
/// inside the window, a bound on the side where it fell outside.
pub open spec fn window_result(r: int, alpha: int, beta: int, m: int) -> bool {
    &&& r < alpha ==> m <= r
    &&& r > beta ==> m >= r
    &&& alpha <= r <= beta ==> r == m
}

proof fn lemma_no_win_at_start(hist: Seq<usize>)
    requires
        hist.len() == 0,
    ensures
        !last_move_won(hist),
{
    assert forall|i: int| !has_bit(0u64, i) by {
        if 0 <= i < 64 {
            let k = i as u64;
            assert((0u64 >> k) & 1 == 0) by (bit_vector);
        }
    }
}

/// Game values lie within `-SIZE..=SIZE`.
proof fn lemma_value_range(hist: Seq<usize>)
    requires
        hist.len() <= 42,
    ensures
        -42 <= minimax_value(hist) <= 42,
        forall|n: int| -42 <= #[trigger] best_of_columns(hist, n) <= 42,
    decreases 42 - hist.len(),
{
    if hist.len() == 0 {
        lemma_no_win_at_start(hist);
    }
    if hist.len() < 42 {
        assert forall|n: int| -42 <= #[trigger] best_of_columns(hist, n) <= 42 by {
            lemma_best_range(hist, n);
        }
        lemma_best_range(hist, 7);
    }
}

proof fn lemma_best_range(hist: Seq<usize>, n: int)
    requires
        hist.len() < 42,
    ensures
        -42 <= best_of_columns(hist, n) <= 42,
    decreases 42 - hist.len(), n,
{
    if n > 0 {
        lemma_best_range(hist, n - 1);
        if count_col(hist, n - 1) < 6 {
            lemma_value_range(hist.push((n - 1) as usize));
        }
    }
}

/// Game value for the side to move after `hist`.
pub open spec fn mover_value(hist: Seq<usize>) -> int {
    if hist.len() % 2 == 0 {
        minimax_value(hist)
    } else {
        -minimax_value(hist)
    }
}

/// Game value of the child reached by playing column `c`.
pub open spec fn child_value(hist: Seq<usize>, c: int) -> int {
    minimax_value(hist.push(c as usize))
}

proof fn lemma_best_fold(hist: Seq<usize>, n: int)
    requires
        hist.len() < 42,
        0 <= n <= 7,
    ensures
        forall|c: int|
            0 <= c < n && count_col(hist, c) < 6 ==> if red_to_move(hist) {
                #[trigger] child_value(hist, c) <= best_of_columns(hist, n)
            } else {
                child_value(hist, c) >= best_of_columns(hist, n)
            },
        best_of_columns(hist, n) == (if red_to_move(hist) {
            -42int
        } else {
            42int
        }) || exists|c: int|
            0 <= c < n && count_col(hist, c) < 6 && best_of_columns(hist, n) == #[trigger] child_value(
                hist,
                c,
            ),
    decreases n,
{
    if n > 0 {
        lemma_best_fold(hist, n - 1);
        if count_col(hist, n - 1) < 6 {
            assert(child_value(hist, n - 1) == minimax_value(hist.push((n - 1) as usize)));
        }
    }
}

/// The value for the side to move is the best over the open columns of the value
/// of the child for the side to move: no column beats it and some column reaches it.
pub proof fn lemma_value_children(hist: Seq<usize>)
    requires
        legal(hist),
        hist.len() < 42,
        !last_move_won(hist),
    ensures
        forall|c: int|
            0 <= c < 7 && count_col(hist, c) < 6 ==> -mover_value(hist.push(c as usize))
                <= mover_value(hist),
        exists|c: int|
            0 <= c < 7 && count_col(hist, c) < 6 && -mover_value(hist.push(c as usize))
                == mover_value(hist),
{
    lemma_best_fold(hist, 7);
    let o = lemma_open_exists(hist);
    lemma_child_bound(hist, o);
    assert(child_value(hist, o) == minimax_value(hist.push(o as usize)));
    assert forall|c: int|
        0 <= c < 7 && count_col(hist, c) < 6 implies -mover_value(hist.push(c as usize))
        <= mover_value(hist) by {
        assert(child_value(hist, c) == minimax_value(hist.push(c as usize)));
    }
    if exists|c: int|
        0 <= c < 7 && count_col(hist, c) < 6 && best_of_columns(hist, 7) == #[trigger] child_value(
            hist,
            c,
        ) {
        let c = choose|c: int|
            0 <= c < 7 && count_col(hist, c) < 6 && best_of_columns(hist, 7) == #[trigger] child_value(
                hist,
                c,
            );
        assert(-mover_value(hist.push(c as usize)) == mover_value(hist));
    } else {
        assert(-mover_value(hist.push(o as usize)) == mover_value(hist));
    }
}

/// Both histories put the same stones on the board, with the same number of moves.
pub open spec fn same_position(h1: Seq<usize>, h2: Seq<usize>) -> bool {
    &&& h1.len() == h2.len()
    &&& stones(h1, 0) == stones(h2, 0)
    &&& stones(h1, 1) == stones(h2, 1)
    &&& forall|c: int| 0 <= c < 7 ==> #[trigger] count_col(h1, c) == count_col(h2, c)
}

proof fn lemma_push_same(h1: Seq<usize>, h2: Seq<usize>, c: int)
    requires
        same_position(h1, h2),
        0 <= c < 7,
    ensures
        same_position(h1.push(c as usize), h2.push(c as usize)),
{
    let n1 = h1.push(c as usize);
    let n2 = h2.push(c as usize);
    assert(n1.drop_last() =~= h1);
    assert(n2.drop_last() =~= h2);
    assert(count_col(h1, c) == count_col(h2, c));
    assert forall|c2: int| 0 <= c2 < 7 implies #[trigger] count_col(n1, c2) == count_col(n2, c2) by {
        assert(count_col(h1, c2) == count_col(h2, c2));
    }
}

/// The game value depends on the position only, not on the order of the moves.
pub proof fn lemma_value_of_position(h1: Seq<usize>, h2: Seq<usize>)
    requires
        same_position(h1, h2),
    ensures
        minimax_value(h1) == minimax_value(h2),
    decreases 42 - h1.len(), 8int,
{
    if h1.len() < 42 {
        lemma_best_of_position(h1, h2, 7);
    }
}

proof fn lemma_best_of_position(h1: Seq<usize>, h2: Seq<usize>, n: int)
    requires
        same_position(h1, h2),
        h1.len() < 42,
        n <= 7,
    ensures
        best_of_columns(h1, n) == best_of_columns(h2, n),
    decreases 42 - h1.len(), n,
{
    if n > 0 {
        lemma_best_of_position(h1, h2, n - 1);
        assert(count_col(h1, n - 1) == count_col(h2, n - 1));
        if count_col(h1, n - 1) < 6 {
            lemma_push_same(h1, h2, n - 1);
            lemma_value_of_position(h1.push((n - 1) as usize), h2.push((n - 1) as usize));
        }
    }
}

/// A legal history of fewer than 42 moves leaves some column open.
pub(crate) proof fn lemma_open_exists(hist: Seq<usize>) -> (c: int)
    requires
        legal(hist),
        hist.len() < 42,
    ensures
        0 <= c < 7,
        count_col(hist, c) < 6,
{
    lemma_legal_counts(hist);
    reveal_with_fuel(filled, 8);
    if count_col(hist, 0) < 6 {
        0
    } else if count_col(hist, 1) < 6 {
        1
    } else if count_col(hist, 2) < 6 {
        2
    } else if count_col(hist, 3) < 6 {
        3
    } else if count_col(hist, 4) < 6 {
        4
    } else if count_col(hist, 5) < 6 {
        5
    } else {
        assert(count_col(hist, 6) < 6);
        6
    }
}

proof fn lemma_push_legal(hist: Seq<usize>, c: int)
    requires
        legal(hist),
        0 <= c < 7,
        count_col(hist, c) < 6,
    ensures
        legal(hist.push(c as usize)),
{
    assert(hist.push(c as usize).drop_last() =~= hist);
}

/// The game value of a position that nobody has won yet is at most the score of
/// winning with the next stone, either way: `|value| <= 42 - moves`.
pub proof fn lemma_value_bound(hist: Seq<usize>)
    requires
        legal(hist),
        hist.len() <= 42,
        !last_move_won(hist),
    ensures
        -(42 - hist.len()) <= minimax_value(hist) <= 42 - hist.len(),
    decreases 42 - hist.len(), 8int,
{
    if hist.len() < 42 {
        let c = lemma_open_exists(hist);
        lemma_best_bound(hist, 7, c);
    }
}

proof fn lemma_child_bound(hist: Seq<usize>, c: int)
    requires
        legal(hist),
        hist.len() < 42,
        0 <= c < 7,
        count_col(hist, c) < 6,
    ensures
        -(42 - hist.len()) <= minimax_value(hist.push(c as usize)) <= 42 - hist.len(),
    decreases 42 - hist.len(), 0int,
{
    lemma_push_legal(hist, c);
    if !last_move_won(hist.push(c as usize)) {
        lemma_value_bound(hist.push(c as usize));
    }
}

proof fn lemma_best_bound(hist: Seq<usize>, n: int, open: int)
    requires
        legal(hist),
        hist.len() < 42,
        0 <= n <= 7,
        0 <= open < 7,
        count_col(hist, open) < 6,
    ensures
        red_to_move(hist) ==> best_of_columns(hist, n) <= 42 - hist.len(),
        red_to_move(hist) && open < n ==> best_of_columns(hist, n) >= -(42 - hist.len()),
        !red_to_move(hist) ==> best_of_columns(hist, n) >= -(42 - hist.len()),
        !red_to_move(hist) && open < n ==> best_of_columns(hist, n) <= 42 - hist.len(),
    decreases 42 - hist.len(), 1int, n,
{
    if n > 0 {
        lemma_best_bound(hist, n - 1, open);
        if count_col(hist, n - 1) < 6 {
            lemma_child_bound(hist, n - 1);
        }
    }
}

pub(crate) proof fn lemma_best_monotone(hist: Seq<usize>, n: int, k: int)
    requires
        0 <= n <= k,
        hist.len() < 42,
    ensures
        red_to_move(hist) ==> best_of_columns(hist, n) <= best_of_columns(hist, k),
        !red_to_move(hist) ==> best_of_columns(hist, n) >= best_of_columns(hist, k),
    decreases k - n,
{
    if n < k {
        lemma_best_monotone(hist, n, k - 1);
    }
}

proof fn lemma_restored(b: Bitboard, a: Bitboard)
    requires
        b.wf(),
        a.wf(),
        a.history() == b.history(),
    ensures
        a.boards == b.boards,
        a.height == b.height,
        a.move_count == b.move_count,
{
    assert(a.boards =~= b.boards);
    assert forall|c: int| 0 <= c < 7 implies a.height[c] == b.height[c] by {
        assert(a.height[c] == column_height(a.history(), c));
        assert(b.height[c] == column_height(b.history(), c));
    }
    assert(a.height =~= b.height);
}

proof fn lemma_open_column(b: Bitboard, c: int)
    requires
        b.wf(),
        0 <= c < 7,
    ensures
        b.heights_in_columns(),
        b.open_column(c) == (count_col(b.history(), c) < 6),
{
    lemma_legal_counts(b.history());
    assert(b.height[c] == column_height(b.history(), c));
    assert forall|k: int| 0 <= k < 7 implies 7 * k <= #[trigger] b.height[k] <= 7 * k + 6 by {
        assert(b.height[k] == column_height(b.history(), k));
    }
}

/// Game value of `board` from red's point of view, by searching the whole tree.
/// The board is left as it was given.
pub fn minimax(board: &mut Bitboard) -> (r: i32)
    requires
        old(board).wf(),
    ensures
        final(board).wf(),
        final(board).history() == old(board).history(),
        r == minimax_value(old(board).history()),
        -SIZE <= r <= SIZE,
    decreases 42 - old(board).move_count,
{
    let ghost hist = board.history();
    let move_count = board.move_count() as i32;
    let red_turn = board.move_count() % 2 == 0;

    proof {
        if hist.len() == 0 {
            lemma_no_win_at_start(hist);
        }
    }
    // the previous move has won the game
    if board.has_won() {
        let mut value = SIZE + 1 - move_count;
        if red_turn {
            value = -value;
        }
        return value;
    }

    // a full board is a draw
    if SIZE == move_count {
        return 0;
    }

    let mut value: i32 = if red_turn {
        -SIZE
    } else {
        SIZE
    };
    let mut col: usize = 0;
    while col < 7
        invariant
            col <= 7,
            board.wf(),
            board.history() == hist,
            hist == old(board).history(),
            board.move_count == hist.len(),
            old(board).move_count == hist.len(),
            hist.len() < 42,
            !last_move_won(hist),
            red_turn == red_to_move(hist),
            value == best_of_columns(hist, col as int),
            -SIZE <= value <= SIZE,
        decreases 7 - col,
    {
        proof {
            lemma_open_column(*board, col as int);
        }
        if board.column_open(col) {
            board.make_move(col);
            let v = minimax(board);
            board.undo_move();
            proof {
                assert(board.history() =~= hist);
            }
            if red_turn {
                if v > value {
                    value = v;
                }
            } else {
                if v < value {
                    value = v;
                }
            }
        }
        col = col + 1;
    }
    proof {
        lemma_best_range(hist, 7);
    }
    value
}

/// Minimax with alpha-beta pruning: `alpha` is the score red is already assured of,
/// `beta` the score yellow is already assured of. Exact when the game value lies in
/// `alpha..=beta`, else a bound on the side where it lies. The board is left as it
/// was given.
pub fn alpha_beta(board: &mut Bitboard, alpha: i32, beta: i32) -> (r: i32)
    requires
        old(board).wf(),
        alpha <= beta,
    ensures
        final(board).wf(),
        final(board).history() == old(board).history(),
        window_result(r as int, alpha as int, beta as int, minimax_value(old(board).history())),
        -SIZE <= r <= SIZE,
{
    // every score lies in -SIZE..=SIZE, so the window can be clamped to that range
    let lo = if alpha < -SIZE {
        -SIZE
    } else if alpha > SIZE {
        SIZE
    } else {
        alpha
    };
    let hi = if beta > SIZE {
        SIZE
    } else if beta < lo {
        lo
    } else {
        beta
    };
    search_window(board, lo, hi)
}

/// The search of `alpha_beta` on a window within the score range.
fn search_window(board: &mut Bitboard, alpha: i32, beta: i32) -> (r: i32)
    requires
        old(board).wf(),
        -SIZE <= alpha <= beta <= SIZE,
    ensures
        final(board).wf(),
        final(board).history() == old(board).history(),
        window_result(r as int, alpha as int, beta as int, minimax_value(old(board).history())),
        -SIZE <= r <= SIZE,
    decreases 42 - old(board).move_count,
{
    let ghost hist = board.history();
    let move_count = board.move_count() as i32;
    let red_turn = board.move_count() % 2 == 0;

    proof {
        if hist.len() == 0 {
            lemma_no_win_at_start(hist);
        }
    }
    // the previous move has won the game
    if board.has_won() {
        let mut value = SIZE + 1 - move_count;
        if red_turn {
            value = -value;
        }
        return value;
    }

    // a full board is a draw
    if SIZE == move_count {
        return 0;
    }

    let ghost a0 = alpha as int;
    let ghost b0 = beta as int;
    let mut lo = alpha;
    let mut hi = beta;
    let mut col: usize = 0;
    if red_turn {
        let mut value: i32 = -SIZE;
        while col < 7
            invariant
                col <= 7,
                board.wf(),
                board.history() == hist,
                hist == old(board).history(),
                board.move_count == hist.len(),
                old(board).move_count == hist.len(),
                hist.len() < 42,
                !last_move_won(hist),
                red_to_move(hist),
                -SIZE <= a0 <= b0 <= SIZE,
                a0 == alpha as int,
                b0 == beta as int,
                hi == b0,
                lo as int == if value as int > a0 {
                    value as int
                } else {
                    a0
                },
                -SIZE <= value <= hi,
                value < a0 ==> best_of_columns(hist, col as int) <= value,
                value >= a0 ==> best_of_columns(hist, col as int) == value,
            decreases 7 - col,
        {
            proof {
                lemma_open_column(*board, col as int);
            }
            if board.column_open(col) {
                board.make_move(col);
                let ghost child = board.history();
                let v = search_window(board, lo, hi);
                board.undo_move();
                proof {
                    assert(board.history() =~= hist);
                    assert(child == hist.push(col));
                }
                if v > value {
                    value = v;
                }
                if hi < value {
                    proof {
                        let c = minimax_value(hist.push(col));
                        assert(c >= v);
                        assert(best_of_columns(hist, col as int + 1) >= c);
                        lemma_best_monotone(hist, col as int + 1, 7);
                        assert(minimax_value(hist) == best_of_columns(hist, 7));
                    }
                    return value;
                }
                if value > lo {
                    lo = value;
                }
            }
            col = col + 1;
        }
        value
    } else {
        let mut value: i32 = SIZE;
        while col < 7
            invariant
                col <= 7,
                board.wf(),
                board.history() == hist,
                hist == old(board).history(),
                board.move_count == hist.len(),
                old(board).move_count == hist.len(),
                hist.len() < 42,
                !last_move_won(hist),
                !red_to_move(hist),
                -SIZE <= a0 <= b0 <= SIZE,
                a0 == alpha as int,
                b0 == beta as int,
                lo == a0,
                hi as int == if (value as int) < b0 {
                    value as int
                } else {
                    b0
                },
                lo <= value <= SIZE,
                -SIZE <= value,
                value > b0 ==> best_of_columns(hist, col as int) >= value,
                value <= b0 ==> best_of_columns(hist, col as int) == value,
            decreases 7 - col,
        {
            proof {
                lemma_open_column(*board, col as int);
            }
            if board.column_open(col) {
                board.make_move(col);
                let ghost child = board.history();
                let v = search_window(board, lo, hi);
                board.undo_move();
                proof {
                    assert(board.history() =~= hist);
                    assert(child == hist.push(col));
                }
                if v < value {
                    value = v;
                }
                if value < lo {
                    proof {
                        let c = minimax_value(hist.push(col));
                        assert(c <= v);
                        assert(best_of_columns(hist, col as int + 1) <= c);
                        lemma_best_monotone(hist, col as int + 1, 7);
                        assert(minimax_value(hist) == best_of_columns(hist, 7));
                    }
                    return value;
                }
                if value < hi {
                    hi = value;
                }
            }
            col = col + 1;
        }
        value
    }
}


/// `v` is what `analyze` owes for column `c` of `board`: `ILLEGAL_MOVE` when the column
/// is full, else a result of `evaluate` on the position after the move.
pub open spec fn evaluated<EF: Fn(Bitboard) -> i32>(board: Bitboard, c: int, v: i32, evaluate: EF) -> bool {
    &&& !board.open_column(c) ==> v == ILLEGAL_MOVE
    &&& board.open_column(c) ==> exists|b: Bitboard|
        {
            &&& b.wf()
            &&& b.history() == board.history().push(c as usize)
            &&& evaluate.ensures((b,), v)
        }
}

/// Score of every column for the side to move: `evaluate` applied to the position
/// after the move, or `ILLEGAL_MOVE` for a column that cannot be played.
pub fn analyze<EF>(board: Bitboard, evaluate: EF) -> (r: [i32; 7]) where
    EF: Fn(Bitboard) -> i32,

    requires
        board.wf(),
        forall|b: Bitboard| b.wf() ==> #[trigger] evaluate.requires((b,)),
    ensures
        forall|c: int| 0 <= c < 7 ==> evaluated(board, c, #[trigger] r[c], evaluate),
{
    let mut cur = board;
    let mut result: [i32; 7] = [ILLEGAL_MOVE;7];
    let mut col: usize = 0;
    while col < 7
        invariant
            col <= 7,
            cur.wf(),
            board.wf(),
            cur.history() == board.history(),
            forall|b: Bitboard| b.wf() ==> #[trigger] evaluate.requires((b,)),
            forall|c: int| col <= c < 7 ==> #[trigger] result[c] == ILLEGAL_MOVE,
            forall|c: int| 0 <= c < col ==> evaluated(board, c, #[trigger] result[c], evaluate),
        decreases 7 - col,
    {
        proof {
            lemma_open_column(cur, col as int);
            lemma_open_column(board, col as int);
            lemma_restored(board, cur);
        }
        let ghost before = result;
        if cur.column_open(col) {
            cur.make_move(col);
            let after = cur;
            result[col] = evaluate(after);
            cur.undo_move();
            proof {
                assert(cur.history() =~= board.history());
                assert(after.wf() && after.history() == board.history().push(col)
                    && evaluate.ensures((after,), result[col as int]));
            }
        }
        proof {
            assert(evaluated(board, col as int, result[col as int], evaluate));
            assert forall|c: int| 0 <= c < col + 1 implies evaluated(
                board,
                c,
                #[trigger] result[c],
                evaluate,
            ) by {
                if c < col {
                    assert(result[c] == before[c]);
                }
            }
        }
        col = col + 1;
    }
    result
}

/// With the widest window, `alpha_beta` gives the same score as `minimax`.
pub proof fn lemma_alpha_beta_agrees(hist: Seq<usize>, r: int)
    requires
        -42 <= r <= 42,
        window_result(r, -42, 42, minimax_value(hist)),
    ensures
        r == minimax_value(hist),
{
}

} // verus!
