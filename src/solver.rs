//! Negamax search with alpha-beta pruning, score-window narrowing, move ordering
//! and a transposition table.
use vstd::array::spec_array_update;
use vstd::prelude::*;

use crate::bits::{group_bits, has_bit, lemma_bit_and, lemma_nonzero_iff_bit};
use crate::board::{
    col_mask, column_height, count_col, filled, lemma_filled_bound, lemma_height_empty, lemma_legal_counts,
    hist_key, legal, lemma_key_position, lemma_stones_below, BOTTOM, lemma_new_win_cell,
    lemma_possible_cells, opponent_stones, lemma_winning_cell_wins, possible_cells, stones, lemma_undo_after_search, non_losing_moves, possible_mask, possible_of, safe_cell,
    winning_cell, winning_mask, wins, Board,
};
use crate::evaluation::{
    best_of_columns, last_move_won, lemma_value_of_position, lemma_open_exists, lemma_value_children, mover_value,
    red_to_move, lemma_best_monotone, lemma_value_bound, minimax_value,
};
use crate::move_sorter::MoveSorter;
use crate::trans_table::{
    bucket, entry_key, entry_upper, entry_value, lookup, TransTable, KEY_LIMIT,
};
use crate::{MAX_SCORE, MIN_SCORE};

verus! {

/// Number of cells of the board.
pub const BOARD_SIZE: i32 = 42;

/// Score of a column that cannot be played.
pub const ILLEGAL_MOVE: i32 = 100;

/// Stones of the side to move once it has played column `c`.
pub open spec fn mover_after(b: Board, c: int) -> u64 {
    b.boards[b.side_to_move()] ^ (1u64 << b.heights[c])
}

/// Cells playable once the side to move has played column `c`.
pub open spec fn possible_after(b: Board, c: int) -> u64 {
    let bit = 1u64 << b.heights[c];
    if b.side_to_move() == 0 {
        possible_of(b.boards[0] ^ bit, b.boards[1])
    } else {
        possible_of(b.boards[0], b.boards[1] ^ bit)
    }
}

/// Once the side to move has played column `c`, the opponent has a playable cell
/// that wins at once.
pub open spec fn reply_wins_after(b: Board, c: int) -> bool {
    exists|j: int|
        has_bit(possible_after(b, c), j) && winning_cell(b.boards[1 - b.side_to_move()], j)
}

/// Game value, for the side to move at `hist`, of playing column `c` and then best
/// play by both sides.
pub open spec fn column_value(hist: Seq<usize>, c: int) -> int {
    if hist.len() % 2 == 0 {
        minimax_value(hist.push(c as usize))
    } else {
        -minimax_value(hist.push(c as usize))
    }
}

/// Nobody has four in a row, and the side to move has no playable winning cell.
pub open spec fn search_ready(b: Board) -> bool {
    &&& !wins(b.boards[0])
    &&& !wins(b.boards[1])
    &&& forall|j: int|
        #[trigger] has_bit(possible_cells(b), j) ==> !winning_cell(b.boards[b.side_to_move()], j)
}

/// Column `c` is open and its lowest empty cell is a non-losing move.
pub open spec fn move_candidate(b: Board, c: int) -> bool {
    b.playable(c) && safe_cell(b, b.heights[c] as int)
}

/// `v` is what `analyze` owes for column `c` of `b` when nobody has won yet.
pub open spec fn column_score(b: Board, c: int, v: i32) -> bool {
    let m = b.move_count + 1;
    &&& !b.playable(c) ==> v == ILLEGAL_MOVE
    &&& b.playable(c) ==> v == column_value(b.history(), c)
    &&& b.playable(c) && wins(mover_after(b, c)) ==> v == MAX_SCORE - m
    &&& b.playable(c) && !wins(mover_after(b, c)) ==> -(MAX_SCORE - m - 1) <= v <= MAX_SCORE - m
        - 1
    &&& b.playable(c) && !wins(mover_after(b, c)) && reply_wins_after(b, c) ==> v == -(MAX_SCORE
        - m - 1)
    &&& b.playable(c) && !wins(mover_after(b, c)) && !reply_wins_after(b, c) && m >= 41 ==> v == 0
}

proof fn lemma_immediate_win_value(b: Board, c: int)
    requires
        b.wf(),
        b.playable(c),
        wins(mover_after(b, c)),
    ensures
        column_value(b.history(), c) == MAX_SCORE - (b.move_count + 1),
{
    let hist = b.history();
    let next = hist.push(c as usize);
    assert(next.drop_last() =~= hist);
    assert(b.heights[c] == column_height(hist, c));
    assert(stones(next, hist.len() as int % 2) == mover_after(b, c));
    assert(last_move_won(next));
}

proof fn lemma_reply_win_value(b: Board, c: int, mid: Board, j: int)
    requires
        b.wf(),
        b.playable(c),
        mid.wf(),
        Board::played(b, c, mid),
        !wins(mover_after(b, c)),
        has_bit(possible_cells(mid), j),
        winning_cell(b.boards[1 - b.side_to_move()], j),
    ensures
        column_value(b.history(), c) == -(MAX_SCORE - (b.move_count + 1) - 1),
{
    let hist = b.history();
    let next = mid.history();
    let p = b.side_to_move();
    let q = 1 - p;
    assert(next.drop_last() =~= hist);
    assert(b.heights[c] == column_height(hist, c));
    assert(stones(next, p) == mover_after(b, c));
    assert(!last_move_won(next));
    lemma_possible_cells(mid);
    let c2 = choose|c2: int| 0 <= c2 < 7 && j == mid.heights[c2] && mid.playable(c2);
    assert(mid.heights[c2] == column_height(next, c2));
    lemma_legal_counts(next);
    lemma_filled_bound(next, 7, c2);
    let after = next.push(c2 as usize);
    assert(after.drop_last() =~= next);
    assert(mid.boards[q] == b.boards[q]);
    assert(stones(next, q) == b.boards[q]);
    lemma_height_empty(next, c2, q);
    lemma_winning_cell_wins(stones(next, q), j);
    assert(stones(after, q) == stones(next, q) ^ (1u64 << (j as u64)));
    assert(last_move_won(after));
    lemma_value_bound(next);
    lemma_best_monotone(next, c2 + 1, 7);
    assert(count_col(next, c2) < 6);
    assert(next.len() < 42);
    assert(minimax_value(next) == best_of_columns(next, 7));
    let child = minimax_value(after);
    if p == 0 {
        assert(!red_to_move(next));
        assert(child == -(43 - (hist.len() + 2)));
        assert(best_of_columns(next, c2 + 1) <= child);
    } else {
        assert(red_to_move(next));
        assert(child == 43 - (hist.len() + 2));
        assert(best_of_columns(next, c2 + 1) >= child);
    }
}

/// `b` with a stone of the side to move dropped into column `c`.
pub open spec fn after_move(b: Board, c: int) -> Board {
    let p = b.side_to_move();
    Board {
        boards: spec_array_update(b.boards, p, b.boards[p] ^ (1u64 << b.heights[c])),
        heights: spec_array_update(b.heights, c, (b.heights[c] + 1) as u64),
        moves: spec_array_update(b.moves, b.move_count as int, c as usize),
        move_count: (b.move_count + 1) as usize,
    }
}

proof fn lemma_after_move_wf(b: Board, c: int)
    requires
        b.wf(),
        b.playable(c),
    ensures
        after_move(b, c).wf(),
        Board::played(b, c, after_move(b, c)),
{
    broadcast use vstd::array::group_array_axioms;

    let a = after_move(b, c);
    let hist = b.history();
    assert(b.heights[c] == column_height(hist, c));
    lemma_legal_counts(hist);
    lemma_filled_bound(hist, 7, c);
    let nh = a.history();
    assert(nh =~= hist.push(c as usize));
    assert(nh.drop_last() =~= hist);
    assert forall|c2: int| 0 <= c2 < 7 implies a.heights[c2] == column_height(nh, c2) by {
        assert(b.heights[c2] == column_height(hist, c2));
    }
}

/// Every open column of `hist` leads to value `v` for the side to move at `hist`.
proof fn lemma_uniform_fold(hist: Seq<usize>, n: int, v: int, open: int)
    requires
        hist.len() < 42,
        0 <= n <= 7,
        0 <= open < 7,
        count_col(hist, open) < 6,
        -42 <= v <= 42,
        forall|c: int| 0 <= c < 7 && count_col(hist, c) < 6 ==> #[trigger] column_value(hist, c) == v,
    ensures
        red_to_move(hist) ==> best_of_columns(hist, n) == -42 || best_of_columns(hist, n) == v,
        !red_to_move(hist) ==> best_of_columns(hist, n) == 42 || best_of_columns(hist, n) == -v,
        open < n ==> best_of_columns(hist, n) == if red_to_move(hist) {
            v
        } else {
            -v
        },
    decreases n,
{
    if n > 0 {
        lemma_uniform_fold(hist, n - 1, v, open);
        if count_col(hist, n - 1) < 6 {
            assert(column_value(hist, n - 1) == v);
        }
    }
}

/// A column whose stone is not a non-losing move loses with the opponent's next stone.
proof fn lemma_unsafe_value(b: Board, c: int)
    requires
        b.wf(),
        search_ready(b),
        b.move_count < 41,
        b.playable(c),
        !safe_cell(b, b.heights[c] as int),
    ensures
        column_value(b.history(), c) == -(MAX_SCORE - b.move_count - 2),
{
    let hist = b.history();
    let p = b.side_to_move();
    let q = 1 - p;
    lemma_legal_counts(hist);
    lemma_possible_cells(b);
    assert(b.heights[c] == column_height(hist, c));
    let i = b.heights[c] as int;
    lemma_after_move_wf(b, c);
    let a = after_move(b, c);
    assert(a.history() == hist.push(c as usize));
    assert(has_bit(possible_cells(b), i));
    if wins(mover_after(b, c)) {
        assert(stones(hist, p) == b.boards[p]);
        lemma_new_win_cell(hist, c, p);
    }
    lemma_possible_cells(a);
    assert(opponent_stones(b) == b.boards[q]);
    if winning_cell(b.boards[q], i + 1) {
        assert(a.heights[c] == i + 1);
        assert(a.playable(c));
        assert(has_bit(possible_cells(a), i + 1));
        lemma_reply_win_value(b, c, a, i + 1);
    } else {
        let j = choose|j: int|
            #![trigger has_bit(possible_cells(b), j)]
            has_bit(possible_cells(b), j) && winning_cell(opponent_stones(b), j) && j != i;
        let c2 = choose|c2: int| 0 <= c2 < 7 && j == b.heights[c2] && b.playable(c2);
        assert(c2 != c);
        assert(a.heights[c2] == b.heights[c2]);
        assert(a.playable(c2));
        assert(has_bit(possible_cells(a), j));
        lemma_reply_win_value(b, c, a, j);
    }
}

/// A column whose stone does not win at once scores within the bounds of a game
/// that goes on.
proof fn lemma_column_bound_nowin(b: Board, c: int)
    requires
        b.wf(),
        b.move_count < 42,
        b.playable(c),
        !wins(mover_after(b, c)),
    ensures
        -(MAX_SCORE - b.move_count - 2) <= column_value(b.history(), c) <= MAX_SCORE - b.move_count
            - 2,
        column_value(b.history(), c) == -mover_value(b.history().push(c as usize)),
{
    let hist = b.history();
    let p = b.side_to_move();
    lemma_legal_counts(hist);
    assert(b.heights[c] == column_height(hist, c));
    lemma_after_move_wf(b, c);
    let a = after_move(b, c);
    let next = hist.push(c as usize);
    assert(a.history() == next);
    assert(next.drop_last() =~= hist);
    assert(stones(next, p) == mover_after(b, c));
    assert(!last_move_won(next));
    lemma_value_bound(next);
}

/// Any column of a ready position scores within the bounds of a game that goes on.
proof fn lemma_column_bound(b: Board, c: int)
    requires
        b.wf(),
        search_ready(b),
        b.move_count < 42,
        b.playable(c),
    ensures
        -(MAX_SCORE - b.move_count - 2) <= column_value(b.history(), c) <= MAX_SCORE - b.move_count
            - 2,
        column_value(b.history(), c) == -mover_value(b.history().push(c as usize)),
{
    let hist = b.history();
    let p = b.side_to_move();
    lemma_legal_counts(hist);
    lemma_possible_cells(b);
    assert(b.heights[c] == column_height(hist, c));
    assert(has_bit(possible_cells(b), b.heights[c] as int));
    if wins(mover_after(b, c)) {
        assert(stones(hist, p) == b.boards[p]);
        lemma_new_win_cell(hist, c, p);
    }
    lemma_column_bound_nowin(b, c);
}

/// With 40 stones and a non-losing move, the last two stones give a draw.
proof fn lemma_forty_draw(b: Board)
    requires
        b.wf(),
        search_ready(b),
        b.move_count == 40,
        exists|i: int| safe_cell(b, i),
    ensures
        mover_value(b.history()) == 0,
{
    let hist = b.history();
    lemma_legal_counts(hist);
    lemma_possible_cells(b);
    let i = choose|i: int| safe_cell(b, i);
    let cs = choose|c: int| 0 <= c < 7 && i == b.heights[c] && b.playable(c);
    lemma_after_move_wf(b, cs);
    let a = after_move(b, cs);
    lemma_child_ready(b, b, cs, a);
    lemma_last_moves_draw(a);
    assert(a.history() == hist.push(cs as usize));
    assert(b.heights[cs] == column_height(hist, cs));
    assert(!last_move_won(hist));
    lemma_value_children(hist);
    let c = choose|c: int|
        0 <= c < 7 && count_col(hist, c) < 6 && -mover_value(hist.push(c as usize)) == mover_value(
            hist,
        );
    assert(b.heights[c] == column_height(hist, c));
    assert(b.playable(c));
    lemma_column_bound(b, c);
    if !safe_cell(b, b.heights[c] as int) {
        lemma_unsafe_value(b, c);
    } else {
        lemma_after_move_wf(b, c);
        lemma_child_ready(b, b, c, after_move(b, c));
        lemma_last_moves_draw(after_move(b, c));
        assert(after_move(b, c).history() == hist.push(c as usize));
    }
}

/// With no non-losing move, the side to move loses with the opponent's next stone.
proof fn lemma_no_safe_value(b: Board)
    requires
        b.wf(),
        search_ready(b),
        b.move_count < 41,
        forall|i: int| !#[trigger] safe_cell(b, i),
    ensures
        (if b.side_to_move() == 0 {
            minimax_value(b.history())
        } else {
            -minimax_value(b.history())
        }) == -(MAX_SCORE - b.move_count - 2),
{
    let hist = b.history();
    let p = b.side_to_move();
    let q = 1 - p;
    lemma_legal_counts(hist);
    lemma_possible_cells(b);
    assert forall|c: int| 0 <= c < 7 && count_col(hist, c) < 6 implies #[trigger] column_value(
        hist,
        c,
    ) == -(MAX_SCORE - b.move_count - 2) by {
        assert(b.heights[c] == column_height(hist, c));
        lemma_unsafe_value(b, c);
    }
    let open = lemma_open_exists(hist);
    assert(!last_move_won(hist));
    lemma_uniform_fold(hist, 7, -(MAX_SCORE - b.move_count - 2), open);
}

proof fn lemma_last_column_fold(hist: Seq<usize>, n: int, c: int)
    requires
        hist.len() < 42,
        0 <= n <= 7,
        0 <= c < 7,
        forall|c2: int| 0 <= c2 < 7 && c2 != c ==> count_col(hist, c2) >= 6,
        count_col(hist, c) < 6,
        minimax_value(hist.push(c as usize)) == 0,
    ensures
        best_of_columns(hist, n) == if n <= c {
            if red_to_move(hist) {
                -42int
            } else {
                42int
            }
        } else {
            0int
        },
    decreases n,
{
    if n > 0 {
        lemma_last_column_fold(hist, n - 1, c);
    }
}

/// With 41 or 42 stones on a board where nobody has won and the side to move cannot
/// win at once, the game is a draw.
proof fn lemma_last_moves_draw(b: Board)
    requires
        b.wf(),
        search_ready(b),
        b.move_count >= 41,
    ensures
        minimax_value(b.history()) == 0,
{
    let hist = b.history();
    let q = (b.move_count + 1) as int % 2;
    assert(!last_move_won(hist));
    if b.move_count == 41 {
        let c = lemma_open_exists(hist);
        lemma_legal_counts(hist);
        reveal_with_fuel(filled, 8);
        let p = b.side_to_move();
        let next = hist.push(c as usize);
        assert(next.drop_last() =~= hist);
        assert(b.heights[c] == column_height(hist, c));
        if last_move_won(next) {
            assert(stones(next, p) == b.boards[p] ^ (1u64 << b.heights[c]));
            lemma_new_win_cell(hist, c, p);
            lemma_possible_cells(b);
            assert(b.playable(c));
            assert(has_bit(possible_cells(b), b.heights[c] as int));
        }
        assert forall|c2: int| 0 <= c2 < 7 && c2 != c implies count_col(hist, c2) >= 6 by {}
        lemma_last_column_fold(hist, 7, c);
    }
}

proof fn lemma_child_ready(start: Board, cur: Board, col: int, mid: Board)
    requires
        start.wf(),
        cur.wf(),
        cur.same_state(start),
        search_ready(start),
        start.playable(col),
        safe_cell(start, start.heights[col] as int),
        Board::played(cur, col, mid),
        mid.wf(),
    ensures
        search_ready(mid),
{
    let hist = start.history();
    let p = start.side_to_move();
    let q = 1 - p;
    let i = start.heights[col] as int;
    assert(cur.boards =~= start.boards);
    assert(cur.heights =~= start.heights);
    assert(start.heights[col] == column_height(hist, col));
    lemma_legal_counts(hist);
    assert(mid.boards[q] == start.boards[q]);
    assert(mid.boards[p] == start.boards[p] ^ (1u64 << (i as u64)));
    assert(stones(hist, p) == start.boards[p]);
    lemma_possible_cells(start);
    assert(has_bit(possible_cells(start), i));
    if wins(mid.boards[p]) {
        lemma_new_win_cell(hist, col, p);
        assert(!winning_cell(start.boards[p], i));
    }
    lemma_possible_cells(mid);
    assert forall|j: int| #[trigger] has_bit(possible_cells(mid), j) implies !winning_cell(
        mid.boards[mid.side_to_move()],
        j,
    ) by {
        let c2 = choose|c2: int| 0 <= c2 < 7 && j == mid.heights[c2] && mid.playable(c2);
        if c2 != col {
            assert(mid.heights[c2] == start.heights[c2]);
            assert(0 <= c2 < 7 && j == start.heights[c2] && start.playable(c2));
            assert(has_bit(possible_cells(start), j));
            assert(start.heights[c2] == column_height(hist, c2));
            assert(j != i);
        } else {
            assert(j == i + 1);
            assert(mid.side_to_move() == q);
        }
    }
}

proof fn lemma_after_move(b: Board, c: int, mid: Board, possible: u64, threats: u64)
    requires
        b.wf(),
        b.playable(c),
        Board::played(b, c, mid),
        possible == possible_of(mid.boards[0], mid.boards[1]),
        forall|i: int| #[trigger] has_bit(threats, i) == winning_cell(mid.boards[mid.move_count as int % 2], i),
    ensures
        mid.boards[(mid.move_count + 1) % 2] == mover_after(b, c),
        possible == possible_after(b, c),
        (possible & threats != 0) == reply_wins_after(b, c),
{
    let p = b.side_to_move();
    assert(mid.boards[p] == mover_after(b, c));
    assert(mid.boards[1 - p] == b.boards[1 - p]);
    assert(mid.move_count as int % 2 == 1 - p);
    assert(possible == possible_after(b, c));
    lemma_nonzero_iff_bit(possible & threats);
    if possible & threats != 0 {
        let j = choose|j: int| has_bit(possible & threats, j);
        lemma_bit_and(possible, threats, j);
        assert(has_bit(threats, j) == winning_cell(mid.boards[mid.move_count as int % 2], j));
        assert(has_bit(possible_after(b, c), j) && winning_cell(b.boards[1 - p], j));
    }
    if reply_wins_after(b, c) {
        let j = choose|j: int| has_bit(possible_after(b, c), j) && winning_cell(b.boards[1 - p], j);
        lemma_bit_and(possible, threats, j);
        assert(has_bit(threats, j) == winning_cell(mid.boards[mid.move_count as int % 2], j));
        assert(has_bit(possible & threats, j));
    }
}

/// Search result `r` of the window `alpha..beta` against the value `v`: exact strictly
/// inside the window, an upper bound at or below `alpha`, a lower bound at or above `beta`.
pub open spec fn fail_soft(r: int, alpha: int, beta: int, v: int) -> bool {
    &&& r <= alpha ==> v <= r
    &&& r >= beta ==> v >= r
    &&& alpha < r < beta ==> r == v
}

/// A table entry holds a true bound of the value of every position with its key.
pub open spec fn sound_entry(e: u64) -> bool {
    forall|h: Seq<usize>|
        legal(h) && #[trigger] hist_key(h) == entry_key(e) ==> {
            &&& entry_upper(e) ==> mover_value(h) <= entry_value(e)
            &&& !entry_upper(e) ==> mover_value(h) >= entry_value(e)
        }
}

/// Every entry of the table is sound.
pub open spec fn sound_table(t: Seq<u64>) -> bool {
    forall|i: int| 0 <= i < t.len() ==> sound_entry(#[trigger] t[i])
}

proof fn lemma_hist_key_nonzero(h: Seq<usize>)
    requires
        legal(h),
    ensures
        hist_key(h) != 0,
{
    lemma_stones_below(h, 0);
    lemma_stones_below(h, 1);
    lemma_stones_below(h, h.len() as int % 2);
    let b0 = stones(h, 0);
    let b1 = stones(h, 1);
    let cur = stones(h, h.len() as int % 2);
    assert(b0 < 1u64 << 49u64 && b1 < 1u64 << 49u64 ==> (((b0 | b1) + BOTTOM) as u64) | cur != 0)
        by (bit_vector);
}

/// An empty table is sound: no position has key 0.
proof fn lemma_zero_sound(n: nat)
    ensures
        sound_table(Seq::new(n, |i: int| 0u64)),
{
    assert(0u64 >> 9u64 == 0) by (bit_vector);
    let t = Seq::new(n, |i: int| 0u64);
    assert forall|i: int| 0 <= i < n implies sound_entry(#[trigger] t[i]) by {
        assert(t[i] == 0u64);
        assert forall|h: Seq<usize>| legal(h) && #[trigger] hist_key(h) == entry_key(0u64) implies {
            &&& entry_upper(0u64) ==> mover_value(h) <= entry_value(0u64)
            &&& !entry_upper(0u64) ==> mover_value(h) >= entry_value(0u64)
        } by {
            lemma_hist_key_nonzero(h);
        }
    }
}

/// A lookup in a sound table gives a true bound, or no constraint.
proof fn lemma_lookup_sound(t: Seq<u64>, h: Seq<usize>)
    requires
        sound_table(t),
        t.len() > 0,
        legal(h),
        h.len() <= 42,
        !last_move_won(h),
    ensures
        lookup(t, hist_key(h)).1 ==> mover_value(h) <= lookup(t, hist_key(h)).0,
        !lookup(t, hist_key(h)).1 ==> mover_value(h) >= lookup(t, hist_key(h)).0,
{
    lemma_value_bound(h);
    let e = t[bucket(hist_key(h), t.len() as int)];
    assert(sound_entry(e));
}

/// Storing a true bound for a position keeps the table sound.
proof fn lemma_store_sound(t: Seq<u64>, i: int, e: u64, h: Seq<usize>)
    requires
        sound_table(t),
        0 <= i < t.len(),
        legal(h),
        entry_key(e) == hist_key(h),
        entry_upper(e) ==> mover_value(h) <= entry_value(e),
        !entry_upper(e) ==> mover_value(h) >= entry_value(e),
    ensures
        sound_table(t.update(i, e)),
{
    assert forall|h2: Seq<usize>| legal(h2) && #[trigger] hist_key(h2) == entry_key(e) implies {
        &&& entry_upper(e) ==> mover_value(h2) <= entry_value(e)
        &&& !entry_upper(e) ==> mover_value(h2) >= entry_value(e)
    } by {
        lemma_key_position(h2, h);
        lemma_value_of_position(h2, h);
    }
    assert(sound_entry(e));
    assert forall|j: int| 0 <= j < t.len() implies sound_entry(#[trigger] t.update(i, e)[j]) by {
        if j != i {
            assert(t.update(i, e)[j] == t[j]);
        }
    }
}

/// The scores `analyze` owes depend on the board alone: two score arrays that both
/// meet them are equal, whatever the table size, the stale entries or a reset.
pub proof fn lemma_scores_determined(b: Board, r1: [i32; 7], r2: [i32; 7])
    requires
        forall|c: int| 0 <= c < 7 ==> column_score(b, c, #[trigger] r1[c]),
        forall|c: int| 0 <= c < 7 ==> column_score(b, c, #[trigger] r2[c]),
    ensures
        r1 == r2,
{
    assert forall|c: int| 0 <= c < 7 implies r1[c] == r2[c] by {
        assert(column_score(b, c, r1[c]));
        assert(column_score(b, c, r2[c]));
    }
    assert(r1 =~= r2);
}

/// Search state: a node counter and a transposition table.
pub struct Solver {
    num_nodes: usize,
    trans_table: TransTable,
}

impl Solver {
    /// The table holds at least one bucket and only scores in range.
    pub closed spec fn wf(&self) -> bool {
        &&& self.trans_table.wf()
        &&& sound_table(self.trans_table@)
    }

    /// Value of the node counter.
    pub closed spec fn nodes(&self) -> int {
        self.num_nodes as int
    }

    /// Contents of the transposition table.
    pub closed spec fn table(&self) -> Seq<u64> {
        self.trans_table@
    }

    /// A solver with a table of `tt_capacity` buckets and no node counted.
    pub fn new(tt_capacity: usize) -> (r: Solver)
        requires
            tt_capacity > 0,
        ensures
            r.wf(),
            r.nodes() == 0,
            r.table() == Seq::new(tt_capacity as nat, |i: int| 0u64),
    {
        let trans_table = TransTable::new(tt_capacity);
        proof {
            lemma_zero_sound(tt_capacity as nat);
        }
        Solver { num_nodes: 0, trans_table }
    }

    /// Score of `board` for the side to move, searched within the window `alpha..beta`,
    /// on a position where nobody has won and the side to move cannot win at once:
    /// the game value when it lies strictly inside the window, else a bound on the side
    /// where it lies. The board is left as it was given; every call counts one node.
    fn negamax(&mut self, board: &mut Board, alpha: i32, beta: i32) -> (r: i32)
        requires
            old(self).wf(),
            old(board).wf(),
            search_ready(*old(board)),
            MIN_SCORE <= alpha < beta <= MAX_SCORE,
        ensures
            final(self).wf(),
            final(board).wf(),
            final(board).same_state(*old(board)),
            MIN_SCORE <= r <= MAX_SCORE,
            fail_soft(r as int, alpha as int, beta as int, mover_value(old(board).history())),
            final(self).nodes() >= old(self).nodes(),
            old(self).nodes() < usize::MAX ==> final(self).nodes() > old(self).nodes(),
            old(board).move_count >= 40 ==> {
                &&& final(self).table() == old(self).table()
                &&& final(self).nodes() == if old(self).nodes() < usize::MAX {
                    old(self).nodes() + 1
                } else {
                    old(self).nodes()
                }
            },
            old(board).move_count >= 40 ==> r == mover_value(old(board).history()),
            old(board).move_count >= 41 ==> r == 0,
            old(board).move_count < 41 && (forall|i: int| !#[trigger] safe_cell(*old(board), i))
                ==> r == -(MAX_SCORE - old(board).move_count - 2),
        decreases 42 - old(board).move_count,
    {
        let ghost hist = board.history();
        let ghost v = mover_value(hist);
        proof {
            assert(!last_move_won(hist));
            lemma_value_bound(hist);
        }
        if self.num_nodes < usize::MAX {
            self.num_nodes = self.num_nodes + 1;
        }
        let move_count = board.move_count() as i32;

        // a full board, or one whose last cell cannot win for the side to move, is a draw
        if move_count >= BOARD_SIZE - 1 {
            proof {
                lemma_last_moves_draw(*board);
            }
            return 0;
        }

        let moves = non_losing_moves(board);
        proof {
            lemma_nonzero_iff_bit(moves);
        }
        if moves == 0 {
            proof {
                assert forall|i: int| !#[trigger] safe_cell(*board, i) by {
                    assert(!has_bit(moves, i));
                }
                lemma_no_safe_value(*board);
            }
            return -(MAX_SCORE - move_count - 2);
        }
        proof {
            let i = choose|i: int| has_bit(moves, i);
            assert(safe_cell(*board, i));
        }

        if move_count == BOARD_SIZE - 2 {
            proof {
                lemma_forty_draw(*board);
            }
            return 0;
        }

        let mut lo = alpha;
        let mut hi = beta;

        let max = MAX_SCORE - move_count - 1;
        if max < hi {
            hi = max;
            if hi <= lo {
                return hi;
            }
        }

        let min = -(MAX_SCORE - move_count - 1);
        if lo < min {
            lo = min;
            if hi <= lo {
                return lo;
            }
        }

        let key = board.key();
        proof {
            assert(1u64 << 49u64 <= KEY_LIMIT) by (bit_vector);
            lemma_lookup_sound(self.trans_table@, hist);
        }
        let (value, is_upper) = self.trans_table.get(key);
        if is_upper && value < hi {
            hi = value;
            if hi <= lo {
                return hi;
            }
        } else if !is_upper && lo < value {
            lo = value;
            if hi <= lo {
                return lo;
            }
        }

        let ghost start = *board;
        let order: [usize; 7] = [3, 2, 4, 1, 5, 0, 6];
        let mut sorter = MoveSorter::new();
        let mut k: usize = 7;
        assert(order[0] == 3 && order[1] == 2 && order[2] == 4 && order[3] == 1 && order[4] == 5
            && order[5] == 0 && order[6] == 6);
        while k > 0
            invariant
                k <= 7,
                order[0] == 3 && order[1] == 2 && order[2] == 4 && order[3] == 1 && order[4] == 5
                    && order[5] == 0 && order[6] == 6,
                forall|i: int| #[trigger] has_bit(moves, i) == safe_cell(start, i),
                board.wf(),
                *board == start,
                start.wf(),
                sorter.wf(),
                sorter@.len() <= 7 - k,
                forall|i: int| 0 <= i < sorter@.len() ==> move_candidate(start, #[trigger] sorter@[i].0 as int),
                forall|k2: int|
                    k <= k2 < 7 && move_candidate(start, order[k2] as int) ==> exists|i: int|
                        0 <= i < sorter@.len() && #[trigger] sorter@[i].0 == order[k2],
            decreases k,
        {
            k = k - 1;
            let col = order[k];
            let cm = col_mask(col);
            proof {
                if move_candidate(start, col as int) {
                    let h = start.heights[col as int] as int;
                    assert(start.heights[col as int] == column_height(start.history(), col as int));
                    assert(has_bit(moves, h));
                    assert(has_bit(cm, h));
                    lemma_bit_and(cm, moves, h);
                    lemma_nonzero_iff_bit(cm & moves);
                }
            }
            let ghost before = sorter@;
            // a column holding a non-losing cell is never full
            if (cm & moves) != 0 {
                proof {
                    lemma_nonzero_iff_bit(cm & moves);
                    let i = choose|i: int| has_bit(cm & moves, i);
                    lemma_bit_and(cm, moves, i);
                    assert(safe_cell(start, i));
                    lemma_possible_cells(start);
                    let c = choose|c: int| 0 <= c < 7 && i == start.heights[c] && start.playable(c);
                    assert(start.heights[c] == column_height(start.history(), c));
                    assert(c == col);
                    assert(move_candidate(start, col as int));
                }
                let score = board.move_score(col);
                sorter.add(col, score);
                proof {
                    let pos = choose|pos: int|
                        {
                            &&& 0 <= pos <= before.len()
                            &&& sorter@ == before.insert(pos, (col, score))
                            &&& forall|i: int| 0 <= i < pos ==> before[i].1 <= score
                            &&& forall|i: int| pos <= i < before.len() ==> before[i].1 > score
                        };
                    assert forall|i: int| 0 <= i < sorter@.len() implies move_candidate(
                        start,
                        #[trigger] sorter@[i].0 as int,
                    ) by {
                        if i < pos {
                            assert(sorter@[i] == before[i]);
                        } else if i > pos {
                            assert(sorter@[i] == before[i - 1]);
                        }
                    }
                    assert forall|k2: int|
                        k <= k2 < 7 && move_candidate(start, order[k2] as int) implies exists|i: int|
                        0 <= i < sorter@.len() && #[trigger] sorter@[i].0 == order[k2] by {
                        if k2 == k {
                            assert(sorter@[pos].0 == order[k2]);
                        } else {
                            let i0 = choose|i: int|
                                0 <= i < before.len() && #[trigger] before[i].0 == order[k2];
                            if i0 < pos {
                                assert(sorter@[i0] == before[i0]);
                            } else {
                                assert(sorter@[i0 + 1] == before[i0]);
                            }
                        }
                    }
                }
            } else {
                proof {
                    assert(!move_candidate(start, col as int));
                }
            }
        }
        proof {
            assert forall|c: int| 0 <= c < 7 && move_candidate(start, c) implies exists|i: int|
                0 <= i < sorter@.len() && #[trigger] sorter@[i].0 == c by {
                let k2: int = if c == 3 {
                    0
                } else if c == 2 {
                    1
                } else if c == 4 {
                    2
                } else if c == 1 {
                    3
                } else if c == 5 {
                    4
                } else if c == 0 {
                    5
                } else {
                    6
                };
                assert(order[k2] == c);
            }
        }

        loop
            invariant
                self.wf(),
                board.wf(),
                board.same_state(start),
                start.wf(),
                start.move_count < 40,
                start == *old(board),
                hist == start.history(),
                v == mover_value(hist),
                -(42 - hist.len()) <= v <= 42 - hist.len(),
                exists|i: int| safe_cell(start, i),
                search_ready(start),
                MIN_SCORE <= alpha < beta <= MAX_SCORE,
                alpha <= lo < hi <= beta,
                lo > alpha ==> v >= lo,
                hi < beta ==> v <= hi,
                key == hist_key(hist),
                key < KEY_LIMIT,
                sorter.wf(),
                forall|i: int| 0 <= i < sorter@.len() ==> move_candidate(start, #[trigger] sorter@[i].0 as int),
                forall|c: int|
                    0 <= c < 7 && move_candidate(start, c) ==> (exists|i: int|
                        0 <= i < sorter@.len() && #[trigger] sorter@[i].0 == c) || column_value(
                        hist,
                        c,
                    ) <= lo,
                self.nodes() >= old(self).nodes(),
                old(self).nodes() < usize::MAX ==> self.nodes() > old(self).nodes(),
            decreases sorter@.len(),
        {
            let ghost before = sorter@;
            let ghost lo0 = lo;
            match sorter.next() {
                None => {
                    proof {
                        lemma_legal_counts(hist);
                        lemma_value_children(hist);
                        let cs = choose|c: int|
                            0 <= c < 7 && count_col(hist, c) < 6 && -mover_value(hist.push(c as usize)) == v;
                        assert(start.heights[cs] == column_height(hist, cs));
                        lemma_column_bound(start, cs);
                        if !move_candidate(start, cs) {
                            lemma_unsafe_value(start, cs);
                            let i = choose|i: int| safe_cell(start, i);
                            lemma_possible_cells(start);
                            let c2 = choose|c: int| 0 <= c < 7 && i == start.heights[c] && start.playable(c);
                            assert(move_candidate(start, c2));
                            lemma_column_bound(start, c2);
                        }
                        assert(v <= lo);
                    }
                    let ghost t0 = self.trans_table@;
                    self.trans_table.put(key, lo, true);
                    proof {
                        let idx = bucket(key, t0.len() as int);
                        lemma_store_sound(t0, idx, self.trans_table@[idx], hist);
                        assert(self.trans_table@ == t0.update(idx, self.trans_table@[idx]));
                    }
                    return lo;
                },
                Some(col) => {
                    proof {
                        assert(before[before.len() - 1] == before.last());
                        assert(move_candidate(start, col as int));
                        lemma_column_bound(start, col as int);
                        lemma_legal_counts(hist);
                        assert(start.heights[col as int] == column_height(hist, col as int));
                        lemma_value_children(hist);
                    }
                    let ghost cur = *board;
                    board.make_move(col);
                    let ghost mid = *board;
                    proof {
                        lemma_child_ready(start, cur, col as int, mid);
                        assert(mid.history() == hist.push(col));
                    }
                    let score = -self.negamax(board, -hi, -lo);
                    let ghost back = *board;
                    board.undo_move();
                    proof {
                        lemma_undo_after_search(cur, col as int, mid, back, *board);
                    }
                    if hi <= score {
                        proof {
                            let t = self.trans_table@;
                            let idx = bucket(key, t.len() as int);
                            assert(v >= score);
                        }
                        let ghost t0 = self.trans_table@;
                        self.trans_table.put(key, score, false);
                        proof {
                            let idx = bucket(key, t0.len() as int);
                            lemma_store_sound(t0, idx, self.trans_table@[idx], hist);
                            assert(self.trans_table@ == t0.update(idx, self.trans_table@[idx]));
                        }
                        return score;
                    }
                    if lo < score {
                        lo = score;
                    }
                    proof {
                        assert forall|i: int| 0 <= i < sorter@.len() implies move_candidate(
                            start,
                            #[trigger] sorter@[i].0 as int,
                        ) by {
                            assert(sorter@[i] == before[i]);
                        }
                        assert forall|c: int|
                            0 <= c < 7 && move_candidate(start, c) implies (exists|i: int|
                            0 <= i < sorter@.len() && #[trigger] sorter@[i].0 == c) || column_value(
                            hist,
                            c,
                        ) <= lo by {
                            if c != col && column_value(hist, c) > lo {
                                assert(column_value(hist, c) > lo0);
                                let i0 = choose|i: int|
                                    0 <= i < before.len() && #[trigger] before[i].0 == c;
                                assert(i0 < before.len() - 1);
                                assert(sorter@[i0] == before[i0]);
                            }
                        }
                    }
                },
            }
        }

    }

    /// Score of every column for the side to move: `ILLEGAL_MOVE` for a column that
    /// cannot be played (for all of them once the game is won); `MAX_SCORE` minus the
    /// stones on the board for a move that wins at once; the negated loss score when
    /// the opponent can then win at once; otherwise the negated search score of the
    /// position after the move.
    pub fn analyze(&mut self, board: Board) -> (r: [i32; 7])
        requires
            old(self).wf(),
            board.wf(),
        ensures
            final(self).wf(),
            final(self).nodes() >= old(self).nodes(),
            wins(board.boards[(board.move_count + 1) % 2]) ==> forall|c: int|
                0 <= c < 7 ==> #[trigger] r[c] == ILLEGAL_MOVE,
            !wins(board.boards[(board.move_count + 1) % 2]) ==> forall|c: int|
                0 <= c < 7 ==> column_score(board, c, #[trigger] r[c]),
    {
        let mut board = board;
        let ghost start = board;
        let mut result: [i32; 7] = [ILLEGAL_MOVE;7];

        if board.has_won() {
            return result;
        }

        let mut col: usize = 0;
        while col < 7
            invariant
                col <= 7,
                board.move_count == start.move_count,
                board.boards == start.boards,
                board.heights == start.heights,
                self.wf(),
                self.nodes() >= old(self).nodes(),
                board.wf(),
                board.same_state(start),
                start.wf(),
                !wins(start.boards[(start.move_count + 1) % 2]),
                forall|c: int| col <= c < 7 ==> #[trigger] result[c] == ILLEGAL_MOVE,
                forall|c: int| 0 <= c < col ==> column_score(start, c, #[trigger] result[c]),
            decreases 7 - col,
        {
            if board.can_play(col) {
                let ghost cur = board;
                board.make_move(col);
                let ghost mid = board;
                let move_count = board.move_count();
                let opponent_winning = winning_mask(board.boards[move_count % 2]);
                let possible = possible_mask(&board);
                proof {
                    assert(cur.history() == start.history());
                    lemma_after_move(start, col as int, mid, possible, opponent_winning);
                }
                if board.has_won() {
                    proof {
                        lemma_immediate_win_value(start, col as int);
                    }
                    result[col] = MAX_SCORE - move_count as i32;
                } else if possible & opponent_winning != 0 {
                    proof {
                        let p = start.side_to_move();
                        let j = choose|j: int|
                            has_bit(possible_after(start, col as int), j) && winning_cell(
                                start.boards[1 - p],
                                j,
                            );
                        lemma_reply_win_value(start, col as int, mid, j);
                    }
                    result[col] = -(MAX_SCORE - move_count as i32 - 1);
                } else {
                    proof {
                        assert(cur.boards =~= start.boards);
                        assert forall|j: int| #[trigger] has_bit(possible_cells(mid), j) implies !winning_cell(
                            mid.boards[mid.side_to_move()],
                            j,
                        ) by {
                            if winning_cell(mid.boards[mid.side_to_move()], j) {
                                assert(has_bit(possible_after(start, col as int), j));
                            }
                        }
                    }
                    let nr = self.negamax(&mut board, MIN_SCORE, MAX_SCORE);
                    proof {
                        lemma_column_bound_nowin(start, col as int);
                        assert(mid.history() == start.history().push(col));
                    }
                    result[col] = -nr;
                }
                let ghost back = board;
                board.undo_move();
                proof {
                    lemma_undo_after_search(cur, col as int, mid, back, board);
                    assert(board.boards =~= start.boards);
                    assert(board.heights =~= start.heights);
                }
            }
            proof {
                let c = col as int;
                let v = result[c];
                let m = start.move_count + 1;
                if start.playable(c) {
                    assert(v == column_value(start.history(), c));
                    if !wins(mover_after(start, c)) {
                        assert(-(MAX_SCORE - m - 1) <= v <= MAX_SCORE - m - 1);
                        if m >= 41 && !reply_wins_after(start, c) {
                            assert(v == 0);
                        }
                    }
                }
            }
            assert(column_score(start, col as int, result[col as int]));
            col = col + 1;
        }
        result
    }

    /// Nodes searched since the solver was made or last reset.
    pub fn explored_nodes(&self) -> (r: usize)
        ensures
            r == self.nodes(),
    {
        self.num_nodes
    }

    /// Sets the node counter to zero and empties the transposition table.
    pub fn reset(&mut self)
        requires
            old(self).wf(),
        ensures
            final(self).wf(),
            final(self).nodes() == 0,
            final(self).table() == Seq::new(old(self).table().len(), |i: int| 0u64),
    {
        self.num_nodes = 0;
        self.trans_table.clear();
        proof {
            lemma_zero_sound(old(self).table().len());
        }
    }
}

} // verus!
