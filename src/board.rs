//! Bit-packed Connect-4 position.
//!
//! Cell layout, one bit per cell, column-major with a guard bit above
//! each column so that shifts never carry a run from one column into the next:
//!
//! ```text
//!  6 13 20 27 34 41 48   guard row
//!  5 12 19 26 33 40 47
//!  4 11 18 25 32 39 46
//!  3 10 17 24 31 38 45
//!  2  9 16 23 30 37 44
//!  1  8 15 22 29 36 43
//!  0  7 14 21 28 35 42   bottom row
//! ```
use vstd::prelude::*;
use vstd::string::StringSliceAdditionalSpecFns;

use crate::evaluation::same_position;
use crate::bits::{bits_below, count_ones, group_bits, has_bit, lemma_bits_ext, lemma_nonzero_iff_bit};

verus! {

broadcast use group_bits;

/// Number of columns.
pub const WIDTH: usize = 7;

/// Number of playable rows.
pub const HEIGHT: usize = 6;

/// Number of cells.
pub const SIZE: usize = 42;

/// One bit in the bottom cell of every column.
pub const BOTTOM: u64 = 0b0000001_0000001_0000001_0000001_0000001_0000001_0000001;

/// One bit in the guard cell of every column.
pub const TOP: u64 = BOTTOM << 6;

/// One bit in each of the 49 cells of the seven columns, guard cells included.
pub const BOARD_CELLS: u64 = 0x1_FFFF_FFFF_FFFF;

/// Owner of a cell.
#[derive(Clone, Copy, Debug, PartialEq, Eq, Structural)]
pub enum Token {
    Red,
    Yellow,
    Empty,
}

/// Whether bit index `i` is the guard cell of a column.
pub open spec fn is_guard_cell(i: int) -> bool {
    0 <= i < 49 && i % 7 == 6
}

/// How many times column `c` occurs in `hist`.
pub open spec fn count_col(hist: Seq<usize>, c: int) -> nat
    decreases hist.len(),
{
    if hist.len() == 0 {
        0
    } else {
        count_col(hist.drop_last(), c) + if hist.last() == c {
            1nat
        } else {
            0nat
        }
    }
}

/// Bit index of the lowest empty cell of column `c` after `hist`.
pub open spec fn column_height(hist: Seq<usize>, c: int) -> int {
    7 * c + count_col(hist, c)
}

/// Every move names a column that still had room when it was played.
pub open spec fn legal(hist: Seq<usize>) -> bool
    decreases hist.len(),
{
    hist.len() == 0 || {
        &&& legal(hist.drop_last())
        &&& hist.last() < 7
        &&& count_col(hist.drop_last(), hist.last() as int) < 6
    }
}

/// Stones of player `p` (0 moves first) after the moves of `hist`.
pub open spec fn stones(hist: Seq<usize>, p: int) -> u64
    decreases hist.len(),
{
    if hist.len() == 0 {
        0
    } else {
        let prev = hist.drop_last();
        if prev.len() % 2 == p {
            stones(prev, p) ^ (1u64 << (column_height(prev, hist.last() as int) as u64))
        } else {
            stones(prev, p)
        }
    }
}

/// Four set bits starting at `i`, each `d` apart.
pub open spec fn four_in_line(x: u64, i: int, d: int) -> bool {
    &&& has_bit(x, i)
    &&& has_bit(x, i + d)
    &&& has_bit(x, i + 2 * d)
    &&& has_bit(x, i + 3 * d)
}

/// The steps between neighbouring cells: vertical, both diagonals, horizontal.
pub open spec fn is_direction(d: int) -> bool {
    d == 1 || d == 6 || d == 7 || d == 8
}

/// The mask holds four in a row in some direction.
pub open spec fn wins(x: u64) -> bool {
    exists|i: int, d: int| is_direction(d) && four_in_line(x, i, d)
}

/// Sum of the column counts of columns `0..n`.
pub open spec fn filled(hist: Seq<usize>, n: int) -> int
    decreases n,
{
    if n <= 0 {
        0
    } else {
        filled(hist, n - 1) + count_col(hist, n - 1)
    }
}

proof fn lemma_filled_push(hist: Seq<usize>, n: int)
    requires
        hist.len() > 0,
    ensures
        filled(hist, n) == filled(hist.drop_last(), n) + if 0 <= hist.last() < n {
            1int
        } else {
            0int
        },
    decreases n,
{
    if n > 0 {
        lemma_filled_push(hist, n - 1);
    }
}

proof fn lemma_filled_empty(hist: Seq<usize>, n: int)
    requires
        hist.len() == 0,
    ensures
        filled(hist, n) == 0,
    decreases n,
{
    if n > 0 {
        lemma_filled_empty(hist, n - 1);
    }
}

pub(crate) proof fn lemma_legal_counts(hist: Seq<usize>)
    requires
        legal(hist),
    ensures
        filled(hist, 7) == hist.len(),
        forall|c: int| 0 <= c < 7 ==> #[trigger] count_col(hist, c) <= 6,
        forall|i: int| 0 <= i < hist.len() ==> hist[i] < 7,
    decreases hist.len(),
{
    if hist.len() > 0 {
        let prev = hist.drop_last();
        assert(legal(prev));
        assert(hist.last() < 7);
        lemma_legal_counts(prev);
        lemma_filled_push(hist, 7);
        assert(filled(prev, 7) == prev.len());
        assert(filled(hist, 7) == prev.len() + 1);
        assert forall|c: int| 0 <= c < 7 implies #[trigger] count_col(hist, c) <= 6 by {
            assert(count_col(prev, c) <= 6);
        }
        assert forall|i: int| 0 <= i < hist.len() implies hist[i] < 7 by {
            if i < prev.len() {
                assert(prev[i] == hist[i]);
            }
        }
    } else {
        lemma_filled_empty(hist, 7);
    }
}

pub(crate) proof fn lemma_filled_bound(hist: Seq<usize>, n: int, col: int)
    requires
        0 <= n <= 7,
        forall|c: int| 0 <= c < 7 ==> #[trigger] count_col(hist, c) <= 6,
    ensures
        filled(hist, n) <= 6 * n,
        0 <= col < n && count_col(hist, col) < 6 ==> filled(hist, n) < 6 * n,
    decreases n,
{
    if n > 0 {
        lemma_filled_bound(hist, n - 1, col);
    }
}

pub(crate) proof fn lemma_stones_below(hist: Seq<usize>, p: int)
    requires
        legal(hist),
    ensures
        stones(hist, p) < 1u64 << 49u64,
    decreases hist.len(),
{
    if hist.len() > 0 {
        let prev = hist.drop_last();
        lemma_stones_below(prev, p);
        let s = stones(prev, p);
        let h = column_height(prev, hist.last() as int) as u64;
        assert(h < 49);
        assert(s < 1u64 << 49u64 && h < 49 ==> s ^ (1u64 << h) < 1u64 << 49u64) by (bit_vector);
    } else {
        assert(0u64 < 1u64 << 49u64) by (bit_vector);
    }
}

pub(crate) proof fn lemma_guard_bits(h: u64)
    requires
        h < 64,
    ensures
        has_bit(TOP, h as int) == is_guard_cell(h as int),
{
    assert(h < 64 ==> (((TOP >> h) & 1 == 1) <==> (h < 49 && h % 7 == 6))) by (bit_vector);
}

pub(crate) proof fn lemma_and_single(x: u64, k: u64)
    requires
        k < 64,
    ensures
        (x & (1u64 << k)) != 0 <==> has_bit(x, k as int),
{
    assert(k < 64 ==> ((x & (1u64 << k)) != 0 <==> (x >> k) & 1 == 1)) by (bit_vector);
}

pub(crate) proof fn lemma_xor_cancel(x: u64, m: u64)
    ensures
        (x ^ m) ^ m == x,
{
    assert((x ^ m) ^ m == x) by (bit_vector);
}

/// A Connect-4 position together with the moves that led to it.
#[derive(Clone, Copy)]
pub struct Board {
    /// Stones of the first and of the second player.
    pub boards: [u64; 2],
    /// Bit index of the lowest empty cell of each column.
    pub heights: [u64; 7],
    /// Columns played so far; only the first `move_count` entries are live.
    pub moves: [usize; 42],
    pub move_count: usize,
}

impl Board {
    /// Number of columns.
    pub const WIDTH: usize = 7;

    /// Number of playable rows.
    pub const HEIGHT: usize = 6;

    /// Columns played so far, oldest first.
    pub open spec fn history(&self) -> Seq<usize> {
        self.moves@.subrange(0, self.move_count as int)
    }

    /// The fields are those obtained by replaying `history` from the empty board.
    pub open spec fn wf(&self) -> bool {
        &&& self.move_count <= 42
        &&& legal(self.history())
        &&& forall|c: int| 0 <= c < 7 ==> self.heights[c] == column_height(self.history(), c)
        &&& self.boards[0] == stones(self.history(), 0)
        &&& self.boards[1] == stones(self.history(), 1)
    }

    /// Column `col` still has an empty cell.
    pub open spec fn playable(&self, col: int) -> bool {
        0 <= col < 7 && self.heights[col] < 7 * col + 6
    }

    /// Player to move: 0 for the first player, 1 for the second.
    pub open spec fn side_to_move(&self) -> int {
        self.move_count as int % 2
    }

    /// `after` is `before` with a stone of the side to move dropped into `col`.
    pub open spec fn played(before: Board, col: int, after: Board) -> bool {
        let p = before.side_to_move();
        &&& after.boards@ == before.boards@.update(
            p,
            before.boards[p] ^ (1u64 << before.heights[col]),
        )
        &&& after.heights@ == before.heights@.update(col, (before.heights[col] + 1) as u64)
        &&& after.move_count == before.move_count + 1
        &&& after.history() == before.history().push(col as usize)
    }

    /// `after` is `before` with its last stone taken back.
    pub open spec fn unplayed(before: Board, after: Board) -> bool {
        let mc = before.move_count - 1;
        let col = before.moves[mc] as int;
        let h = (before.heights[col] - 1) as u64;
        &&& after.boards@ == before.boards@.update(mc % 2, before.boards[mc % 2] ^ (1u64 << h))
        &&& after.heights@ == before.heights@.update(col, h)
        &&& after.move_count == mc
        &&& after.history() == before.history().drop_last()
    }

    /// Both boards hold the same stones, heights and history.
    pub open spec fn same_state(&self, other: Board) -> bool {
        &&& self.boards@ == other.boards@
        &&& self.heights@ == other.heights@
        &&& self.move_count == other.move_count
        &&& self.history() == other.history()
    }

    /// The empty board.
    pub fn new() -> (r: Board)
        ensures
            r.wf(),
            r.move_count == 0,
            r.boards[0] == 0 && r.boards[1] == 0,
    {
        let r = Board {
            boards: [0, 0],
            heights: [0, 7, 14, 21, 28, 35, 42],
            moves: [0;42],
            move_count: 0,
        };
        assert(r.history() =~= Seq::<usize>::empty());
        r
    }

    /// Drops a stone of the side to move into `col`.
    pub fn make_move(&mut self, col: usize)
        requires
            old(self).wf(),
            old(self).playable(col as int),
        ensures
            final(self).wf(),
            Board::played(*old(self), col as int, *final(self)),
    {
        let ghost hist = self.history();
        let ghost old_h = self.heights;
        proof {
            assert(old_h[col as int] == column_height(hist, col as int));
            lemma_legal_counts(hist);
            lemma_filled_bound(hist, 7, col as int);
        }
        let p = self.move_count % 2;
        let bit: u64 = 1u64 << self.heights[col];
        self.boards[p] = self.boards[p] ^ bit;
        self.moves[self.move_count] = col;
        self.heights[col] = self.heights[col] + 1;
        self.move_count = self.move_count + 1;
        proof {
            let nh = self.history();
            assert(nh =~= hist.push(col));
            assert(nh.drop_last() =~= hist);
            assert forall|c: int| 0 <= c < 7 implies self.heights[c] == column_height(nh, c) by {
                assert(old_h[c] == column_height(hist, c));
            }
        }
    }

    /// Takes back the last stone.
    pub fn undo_move(&mut self)
        requires
            old(self).wf(),
            old(self).move_count > 0,
        ensures
            final(self).wf(),
            Board::unplayed(*old(self), *final(self)),
    {
        let ghost hist = self.history();
        let ghost prev = hist.drop_last();
        let ghost old_h = self.heights;
        proof {
            let last = hist.last() as int;
            assert(old_h[last] == column_height(hist, last));
            lemma_legal_counts(hist);
            assert(hist.last() == self.moves[self.move_count - 1]);
        }
        self.move_count = self.move_count - 1;
        let col = self.moves[self.move_count];
        self.heights[col] = self.heights[col] - 1;
        let p = self.move_count % 2;
        let bit: u64 = 1u64 << self.heights[col];
        self.boards[p] = self.boards[p] ^ bit;
        proof {
            assert(self.history() =~= prev);
            lemma_xor_cancel(stones(prev, p as int), bit);
            assert forall|c: int| 0 <= c < 7 implies self.heights[c] == column_height(prev, c) by {
                assert(old_h[c] == column_height(hist, c));
            }
        }
    }

    /// Whether `col` still has an empty cell.
    pub fn can_play(&self, col: usize) -> (r: bool)
        requires
            self.wf(),
            col < 7,
        ensures
            r == self.playable(col as int),
            r == (count_col(self.history(), col as int) < 6),
    {
        proof {
            assert(self.heights[col as int] == column_height(self.history(), col as int));
            lemma_legal_counts(self.history());
            lemma_guard_bits(self.heights[col as int]);
            lemma_and_single(TOP, self.heights[col as int]);
        }
        (TOP & (1u64 << self.heights[col])) == 0
    }

    /// Whether `bb` holds four in a row: vertically, horizontally or on a diagonal.
    pub fn is_win(bb: u64) -> (r: bool)
        ensures
            r == wins(bb),
    {
        let vert = (bb >> 1u64) & bb;
        let hori = (bb >> 7u64) & bb;
        let diag1 = (bb >> 6u64) & bb;
        let diag2 = (bb >> 8u64) & bb;
        let all = (vert & (vert >> 2u64)) | (hori & (hori >> 14u64)) | (diag1 & (diag1 >> 12u64))
            | (diag2 & (diag2 >> 16u64));
        proof {
            assert forall|i: int| #[trigger] has_bit(all, i) <==> (four_in_line(bb, i, 1)
                || four_in_line(bb, i, 7) || four_in_line(bb, i, 6) || four_in_line(bb, i, 8)) by {}
            lemma_nonzero_iff_bit(all);
            if all != 0 {
                let i = choose|i: int| has_bit(all, i);
                if four_in_line(bb, i, 1) {
                    assert(is_direction(1));
                } else if four_in_line(bb, i, 7) {
                    assert(is_direction(7));
                } else if four_in_line(bb, i, 6) {
                    assert(is_direction(6));
                } else {
                    assert(is_direction(8));
                }
            }
            if wins(bb) {
                let (i, d) = choose|i: int, d: int| is_direction(d) && four_in_line(bb, i, d);
                assert(has_bit(all, i));
            }
        }
        all != 0
    }

    /// Whether the player who made the last move has four in a row.
    pub fn has_won(&self) -> (r: bool)
        requires
            self.wf(),
        ensures
            r == wins(self.boards[(self.move_count + 1) % 2]),
    {
        Board::is_win(self.boards[(self.move_count + 1) % 2])
    }

    /// Number of stones on the board.
    pub fn move_count(&self) -> (r: usize)
        ensures
            r == self.move_count,
    {
        self.move_count
    }

    /// Columns played so far, oldest first.
    pub fn moves(&self) -> (r: Vec<usize>)
        requires
            self.move_count <= 42,
        ensures
            r@ == self.history(),
    {
        let mut r: Vec<usize> = Vec::new();
        let mut i: usize = 0;
        while i < self.move_count
            invariant
                self.move_count <= 42,
                i <= self.move_count,
                r@ == self.history().subrange(0, i as int),
            decreases self.move_count - i,
        {
            r.push(self.moves[i]);
            i = i + 1;
            assert(r@ =~= self.history().subrange(0, i as int));
        }
        assert(r@ =~= self.history());
        r
    }

    /// The two stone masks, first player first.
    pub fn boards(&self) -> (r: &[u64; 2])
        ensures
            r == &self.boards,
    {
        &self.boards
    }

    /// Position key: the occupied cells shifted up by one in every column, so that
    /// the lowest empty cell of each column is marked, together with the stones of
    /// the side to move.
    pub fn key(&self) -> (r: u64)
        requires
            self.wf(),
        ensures
            r == (((self.boards[0] | self.boards[1]) + BOTTOM) as u64) | self.boards[
                self.side_to_move()
            ],
            r < 1u64 << 49u64,
            r != 0,
            r == hist_key(self.history()),
    {
        let b0 = self.boards[0];
        let b1 = self.boards[1];
        let cur = self.boards[self.move_count % 2];
        proof {
            lemma_stones_below(self.history(), 0);
            lemma_stones_below(self.history(), 1);
            assert(b0 < 1u64 << 49u64 && b1 < 1u64 << 49u64 ==> (b0 | b1) + BOTTOM < 1u64
                << 50u64) by (bit_vector);
            let s = ((b0 | b1) + BOTTOM) as u64;
            assert(s < 1u64 << 50u64 && cur < 1u64 << 49u64 ==> s | cur < 1u64 << 50u64)
                by (bit_vector);
            assert(b0 < 1u64 << 49u64 && b1 < 1u64 << 49u64 && s == (b0 | b1) + BOTTOM ==> s
                | cur != 0) by (bit_vector);
            lemma_key_below(self.history());
        }
        ((b0 | b1) + BOTTOM) | cur
    }

    /// Owner of the cell in `row` (0 is the top row) of `col`.
    pub fn get(&self, row: usize, col: usize) -> (r: Token)
        requires
            row < 6,
            col < 7,
        ensures
            ({
                let i = 7 * col + 5 - row;
                r == if has_bit(self.boards[0], i) {
                    Token::Red
                } else if has_bit(self.boards[1], i) {
                    Token::Yellow
                } else {
                    Token::Empty
                }
            }),
    {
        let k: u64 = (5 - row + col * 7) as u64;
        let pos: u64 = 1u64 << k;
        proof {
            lemma_and_single(self.boards[0], k);
            lemma_and_single(self.boards[1], k);
        }
        if (self.boards[0] & pos) != 0 {
            Token::Red
        } else if (self.boards[1] & pos) != 0 {
            Token::Yellow
        } else {
            Token::Empty
        }
    }
}

/// Cells `i + a * d`, `i + b * d` and `i + c * d` are all set in `x`.
pub open spec fn three_set(x: u64, i: int, d: int, a: int, b: int, c: int) -> bool {
    has_bit(x, i + a * d) && has_bit(x, i + b * d) && has_bit(x, i + c * d)
}

/// Setting cell `i` would complete four in a row along step `d`, with `i` in any of
/// the four places of the run.
pub open spec fn completes_line(x: u64, i: int, d: int) -> bool {
    ||| three_set(x, i, d, 1, 2, 3)
    ||| three_set(x, i, d, -1, 1, 2)
    ||| three_set(x, i, d, -2, -1, 1)
    ||| three_set(x, i, d, -3, -2, -1)
}

/// Cell `i` is a board cell (no guard cell) and setting it would give `x` four in a row: on top of
/// three stones of a column, or in any place of a horizontal or diagonal run.
pub open spec fn winning_cell(x: u64, i: int) -> bool {
    &&& 0 <= i < 49
    &&& !is_guard_cell(i)
    &&& {
        ||| three_set(x, i, 1, -3, -2, -1)
        ||| completes_line(x, i, 6)
        ||| completes_line(x, i, 7)
        ||| completes_line(x, i, 8)
    }
}

/// Number of cells below `n` that `winning_cell` holds of.
pub open spec fn count_winning(x: u64, n: nat) -> nat
    decreases n,
{
    if n == 0 {
        0
    } else {
        count_winning(x, (n - 1) as nat) + if winning_cell(x, n - 1) {
            1nat
        } else {
            0nat
        }
    }
}

/// Lowest empty cell of every column that is not full, as the formula on the stones gives it.
pub open spec fn possible_of(b0: u64, b1: u64) -> u64 {
    (((b0 | b1) + BOTTOM) as u64) & !TOP
}

/// Cells playable now.
pub open spec fn possible_cells(b: Board) -> u64 {
    possible_of(b.boards[0], b.boards[1])
}

/// Stones of the player who is not to move.
pub open spec fn opponent_stones(b: Board) -> u64 {
    b.boards[(b.move_count + 1) % 2]
}

/// After the side to move plays cell `i`, the opponent can win at once: in the cell
/// that opened above `i`, or in another playable cell.
pub open spec fn threat_after(b: Board, i: int) -> bool {
    ||| winning_cell(opponent_stones(b), i + 1)
    ||| exists|j: int| j != i && has_bit(possible_cells(b), j) && winning_cell(opponent_stones(b), j)
}

/// Playable cell `i` leaves the opponent no immediate win: it is not directly below an
/// opponent winning cell, and no other playable cell is one.
pub open spec fn safe_cell(b: Board, i: int) -> bool {
    &&& has_bit(possible_cells(b), i)
    &&& !winning_cell(opponent_stones(b), i + 1)
    &&& forall|j: int|
        #![trigger has_bit(possible_cells(b), j)]
        has_bit(possible_cells(b), j) && winning_cell(opponent_stones(b), j) ==> j == i
}

/// Cells playable now: the lowest empty cell of every column that is not full.
pub fn possible_mask(b: &Board) -> (r: u64)
    requires
        b.wf(),
    ensures
        r == possible_cells(*b),
        forall|i: int|
            #[trigger] has_bit(r, i) <==> exists|c: int|
                0 <= c < 7 && i == b.heights[c] && b.playable(c),
{
    proof {
        lemma_possible_cells(*b);
    }
    proof {
        lemma_stones_below(b.history(), 0);
        lemma_stones_below(b.history(), 1);
        let b0 = b.boards[0];
        let b1 = b.boards[1];
        assert(b0 < 1u64 << 49u64 && b1 < 1u64 << 49u64 ==> (b0 | b1) + BOTTOM < 1u64 << 50u64)
            by (bit_vector);
    }
    ((b.boards[0] | b.boards[1]) + BOTTOM) & !TOP
}

/// The seven cells of column `col`, guard cell included.
pub fn col_mask(col: usize) -> (r: u64)
    requires
        col < 7,
    ensures
        forall|i: int| #[trigger] has_bit(r, i) == (7 * col <= i < 7 * col + 7),
{
    let column: u64 = 0b1111111;
    let s: u64 = (col * 7) as u64;
    proof {
        assert forall|k: u64| k < 64 implies #[trigger] has_bit(127u64, k as int) == (k < 7) by {
            assert(k < 64 ==> (((127u64 >> k) & 1 == 1) <==> k < 7)) by (bit_vector);
        }
        assert forall|i: int| #[trigger] has_bit(column << s, i) == (7 * col <= i < 7 * col + 7) by {
            if 0 <= i < 64 && i >= s {
                assert(has_bit(127u64, ((i - s) as u64) as int) == (((i - s) as u64) < 7));
            }
        }
    }
    column << s
}

/// Every cell, guard cells excluded, that would give `bb` four in a row if it were set.
pub fn winning_mask(bb: u64) -> (r: u64)
    ensures
        forall|i: int| #[trigger] has_bit(r, i) == winning_cell(bb, i),
        r < 1u64 << 49u64,
{
    // vertical
    let mut res = (bb << 3u64) & (bb << 2u64) & (bb << 1u64);

    // horizontal
    let mut tmp = (bb << 7u64) & (bb << 14u64);
    res = res | (tmp & (bb << 21u64));
    res = res | ((bb >> 7u64) & tmp);
    tmp = (bb >> 14u64) & (bb >> 7u64);
    res = res | (tmp & (bb << 7u64));
    res = res | ((bb >> 21u64) & tmp);

    // diagonal /
    tmp = (bb << 8u64) & (bb << 16u64);
    res = res | (tmp & (bb << 24u64));
    res = res | ((bb >> 8u64) & tmp);
    tmp = (bb >> 16u64) & (bb >> 8u64);
    res = res | (tmp & (bb << 8u64));
    res = res | ((bb >> 24u64) & tmp);

    // diagonal \
    tmp = (bb << 6u64) & (bb << 12u64);
    res = res | (tmp & (bb << 18u64));
    res = res | ((bb >> 6u64) & tmp);
    tmp = (bb >> 12u64) & (bb >> 6u64);
    res = res | (tmp & (bb << 6u64));
    res = res | ((bb >> 18u64) & tmp);

    let r = res & !TOP & BOARD_CELLS;
    proof {
        assert forall|i: int| #[trigger] has_bit(r, i) == winning_cell(bb, i) by {
            if 0 <= i < 64 {
                let k = i as u64;
                lemma_guard_bits(k);
                assert(k < 64 ==> (((BOARD_CELLS >> k) & 1 == 1) <==> k < 49)) by (bit_vector);
            }
        }
        assert(r & BOARD_CELLS == r ==> r < 1u64 << 49u64) by (bit_vector);
        assert(r & BOARD_CELLS == r) by (bit_vector)
            requires
                r == res & !TOP & BOARD_CELLS,
        ;
    }
    r
}

/// A word whose `f & (f - 1)` is zero has at most one set bit.
proof fn lemma_single_bit(f: u64)
    requires
        f != 0,
        f & ((f - 1) as u64) == 0,
    ensures
        exists|k: int| is_only_bit(f, k),
{
    lemma_nonzero_iff_bit(f);
    let k = choose|k: int| has_bit(f, k);
    let kk = k as u64;
    let g = (f - 1) as u64;
    assert(f != 0 && g == f - 1 && f & g == 0 && (f >> kk) & 1 == 1 && kk < 64 ==> f == 1u64
        << kk) by (bit_vector);
    assert forall|j: int| #[trigger] has_bit(f, j) <==> j == k by {}
    assert(is_only_bit(f, k));
}

/// `k` is the one set bit of `f`.
spec fn is_only_bit(f: u64, k: int) -> bool {
    forall|j: int| #[trigger] has_bit(f, j) <==> j == k
}

/// A word whose `f & (f - 1)` is non-zero has two distinct set bits.
proof fn lemma_two_bits(f: u64)
    requires
        f != 0,
        f & ((f - 1) as u64) != 0,
    ensures
        exists|j1: int, j2: int| j1 != j2 && has_bit(f, j1) && has_bit(f, j2),
{
    let g = (f - 1) as u64;
    let low = f & !g;
    assert(f != 0 && g == f - 1 ==> f & !g != 0) by (bit_vector);
    lemma_nonzero_iff_bit(low);
    lemma_nonzero_iff_bit(f & g);
    let j1 = choose|i: int| has_bit(low, i);
    let j2 = choose|i: int| has_bit(f & g, i);
    assert(has_bit(f, j1) && !has_bit(g, j1));
    assert(has_bit(f, j2) && has_bit(g, j2));
}

/// Cells the side to move can play without handing the opponent an immediate win.
pub fn non_losing_moves(b: &Board) -> (r: u64)
    requires
        b.wf(),
    ensures
        forall|i: int| #[trigger] has_bit(r, i) == safe_cell(*b, i),
{
    let mut possible = possible_mask(b);
    let opponent_winning = winning_mask(b.boards[(b.move_count + 1) % 2]);
    let forcing = possible & opponent_winning;
    let ghost pc = possible_cells(*b);
    let ghost opp = opponent_stones(*b);
    if forcing != 0 {
        if forcing & (forcing - 1) != 0 {
            proof {
                lemma_two_bits(forcing);
                let (j1, j2) = choose|j1: int, j2: int|
                    j1 != j2 && has_bit(forcing, j1) && has_bit(forcing, j2);
                assert forall|i: int| #[trigger] has_bit(0u64, i) == safe_cell(*b, i) by {
                    assert(0u64 >> 0u64 == 0) by (bit_vector);
                    lemma_nonzero_iff_bit(0u64);
                    if safe_cell(*b, i) {
                        assert(has_bit(pc, j1) && winning_cell(opp, j1));
                        assert(has_bit(pc, j2) && winning_cell(opp, j2));
                    }
                }
            }
            return 0;
        } else {
            proof {
                lemma_single_bit(forcing);
            }
            possible = forcing;
        }
    } else {
        proof {
            lemma_nonzero_iff_bit(forcing);
        }
    }
    let r = possible & !(opponent_winning >> 1u64);
    proof {
        assert forall|i: int| #[trigger] has_bit(r, i) == safe_cell(*b, i) by {
            if forcing != 0 {
                let k = choose|k: int| is_only_bit(forcing, k);
                assert(has_bit(forcing, k));
                if safe_cell(*b, i) {
                    assert(has_bit(pc, k) && winning_cell(opp, k));
                }
                if has_bit(r, i) {
                    assert forall|j: int| #![trigger has_bit(pc, j)]
                        has_bit(pc, j) && winning_cell(opp, j) implies j == i by {
                        assert(has_bit(forcing, j));
                    }
                }
            } else {
                if has_bit(r, i) {
                    assert forall|j: int| #![trigger has_bit(pc, j)]
                        has_bit(pc, j) && winning_cell(opp, j) implies j == i by {
                        assert(has_bit(forcing, j));
                    }
                }
            }
        }
    }
    r
}

/// A move is non-losing exactly when it leaves the opponent no immediate win, so the
/// side to move has no non-losing move exactly when every playable cell leaves one;
/// in particular when the opponent already has two distinct playable winning cells.
pub proof fn lemma_no_safe_move(b: Board)
    requires
        b.wf(),
    ensures
        forall|i: int|
            has_bit(possible_cells(b), i) ==> (#[trigger] safe_cell(b, i) <==> !threat_after(b, i)),
        (forall|i: int| !#[trigger] safe_cell(b, i)) <==> (forall|i: int|
            #[trigger] has_bit(possible_cells(b), i) ==> threat_after(b, i)),
        (exists|j1: int, j2: int|
            {
                &&& j1 != j2
                &&& has_bit(possible_cells(b), j1) && winning_cell(opponent_stones(b), j1)
                &&& has_bit(possible_cells(b), j2) && winning_cell(opponent_stones(b), j2)
            }) ==> forall|i: int| !#[trigger] safe_cell(b, i),
{
    let pc = possible_cells(b);
    let opp = opponent_stones(b);
    assert forall|i: int| has_bit(pc, i) implies (#[trigger] safe_cell(b, i) <==> !threat_after(b, i)) by {
        if threat_after(b, i) && !winning_cell(opp, i + 1) {
            let j = choose|j: int| j != i && has_bit(pc, j) && winning_cell(opp, j);
            assert(has_bit(pc, j));
        }
    }
    if forall|i: int| !#[trigger] safe_cell(b, i) {
        assert forall|i: int| #[trigger] has_bit(pc, i) implies threat_after(b, i) by {
            assert(!safe_cell(b, i));
        }
    }
    if forall|i: int| #[trigger] has_bit(pc, i) ==> threat_after(b, i) {
        assert forall|i: int| !#[trigger] safe_cell(b, i) by {
            if has_bit(pc, i) {
                assert(threat_after(b, i));
            }
        }
    }
    if exists|j1: int, j2: int|
        {
            &&& j1 != j2
            &&& has_bit(pc, j1) && winning_cell(opp, j1)
            &&& has_bit(pc, j2) && winning_cell(opp, j2)
        } {
        let (j1, j2) = choose|j1: int, j2: int|
            {
                &&& j1 != j2
                &&& has_bit(pc, j1) && winning_cell(opp, j1)
                &&& has_bit(pc, j2) && winning_cell(opp, j2)
            };
        assert forall|i: int| !#[trigger] safe_cell(b, i) by {
            if safe_cell(b, i) {
                assert(has_bit(pc, j1));
                assert(has_bit(pc, j2));
            }
        }
    }
}

proof fn lemma_count_winning(w: u64, x: u64, n: nat)
    requires
        n <= 64,
        forall|i: int| #[trigger] has_bit(w, i) == winning_cell(x, i),
    ensures
        bits_below(w, n) == count_winning(x, n),
    decreases n,
{
    if n > 0 {
        lemma_count_winning(w, x, (n - 1) as nat);
        assert(has_bit(w, n - 1) == winning_cell(x, n - 1));
    }
}

impl Board {
    /// Move-ordering score of `col`: how many winning cells the side to move would
    /// have after playing there.
    pub fn move_score(&self, col: usize) -> (r: u32)
        requires
            self.wf(),
            col < 7,
        ensures
            r == count_winning(
                self.boards[self.side_to_move()] | (1u64 << self.heights[col as int]),
                64,
            ),
    {
        proof {
            assert(self.heights[col as int] == column_height(self.history(), col as int));
            lemma_legal_counts(self.history());
        }
        let x = self.boards[self.move_count % 2] | (1u64 << self.heights[col]);
        let w = winning_mask(x);
        proof {
            lemma_count_winning(w, x, 64);
        }
        count_ones(w)
    }
}

/// Playing a column and taking the stone back restores the stones, the heights,
/// the move count and the history.
pub proof fn lemma_make_undo(b: Board, col: int, mid: Board, after: Board)
    requires
        b.wf(),
        b.playable(col),
        mid.wf(),
        Board::played(b, col, mid),
        Board::unplayed(mid, after),
    ensures
        after.same_state(b),
{
    assert(mid.history().last() == col);
    assert(mid.moves[b.move_count as int] == mid.history()[b.move_count as int]);
    lemma_xor_cancel(b.boards[b.side_to_move()], 1u64 << b.heights[col]);
    assert(after.boards@ =~= b.boards@);
    assert(after.heights@ =~= b.heights@);
    assert(mid.history().drop_last() =~= b.history());
}

/// Columns named by a string of digits `'0'..='6'`.
pub open spec fn columns_of(bs: Seq<u8>) -> Seq<usize> {
    bs.map_values(|c: u8| (c - 48) as usize)
}

/// Each byte is a digit naming a column that still has room, and no move follows
/// one that won.
pub open spec fn replayable(bs: Seq<u8>) -> bool
    decreases bs.len(),
{
    bs.len() == 0 || {
        let prev = bs.drop_last();
        let hist = columns_of(prev);
        &&& replayable(prev)
        &&& 48 <= bs.last() < 55
        &&& count_col(hist, bs.last() - 48) < 6
        &&& !wins(stones(hist, (prev.len() + 1) as int % 2))
    }
}

pub(crate) proof fn lemma_replayable_prefix(bs: Seq<u8>, n: int)
    requires
        replayable(bs),
        0 <= n <= bs.len(),
    ensures
        replayable(bs.take(n)),
    decreases bs.len(),
{
    if n < bs.len() {
        assert(bs.drop_last().take(n) =~= bs.take(n));
        lemma_replayable_prefix(bs.drop_last(), n);
    } else {
        assert(bs.take(n) =~= bs);
    }
}

impl Board {
    /// Replays a string of column digits `'0'..='6'` from the empty board. `None` when a
    /// character is no such digit, a column is full, or a move follows a win.
    pub fn from_moves(s: &str) -> (r: Option<Board>)
        ensures
            r.is_some() == replayable(s.spec_bytes()),
            r matches Some(b) ==> b.wf() && b.history() == columns_of(s.spec_bytes()),
    {
        let bytes = s.as_bytes();
        let ghost bs = bytes@;
        let mut board = Board::new();
        let mut i: usize = 0;
        assert(board.history() =~= columns_of(bs.take(0)));
        while i < bytes.len()
            invariant
                bs == s.spec_bytes(),
                bytes@ == bs,
                i <= bs.len(),
                board.wf(),
                board.move_count == i,
                board.history() == columns_of(bs.take(i as int)),
                replayable(bs.take(i as int)),
            decreases bs.len() - i,
        {
            let c = bytes[i];
            let ghost next = bs.take(i + 1);
            proof {
                assert(next.drop_last() =~= bs.take(i as int));
                assert(next.last() == c);
            }
            if c < 48 || c > 54 {
                proof {
                    if replayable(bs) {
                        lemma_replayable_prefix(bs, i + 1);
                    }
                }
                return None;
            }
            let col = (c - 48) as usize;
            if board.has_won() || !board.can_play(col) {
                proof {
                    if replayable(bs) {
                        lemma_replayable_prefix(bs, i + 1);
                    }
                }
                return None;
            }
            board.make_move(col);
            i = i + 1;
            assert(board.history() =~= columns_of(bs.take(i as int)));
        }
        assert(bs.take(i as int) =~= bs);
        Some(board)
    }
}

/// Taking back a stone after a search that left the board in the same state as the
/// move made it gives back the state from before the move.
pub proof fn lemma_undo_after_search(b: Board, col: int, mid: Board, back: Board, after: Board)
    requires
        b.wf(),
        b.playable(col),
        mid.wf(),
        back.wf(),
        Board::played(b, col, mid),
        back.same_state(mid),
        Board::unplayed(back, after),
    ensures
        after.same_state(b),
{
    assert(mid.history().last() == col);
    assert(back.moves[b.move_count as int] == back.history()[b.move_count as int]);
    lemma_xor_cancel(b.boards[b.side_to_move()], 1u64 << b.heights[col]);
    assert(after.boards@ =~= b.boards@);
    assert(after.heights@ =~= b.heights@);
    assert(mid.history().drop_last() =~= b.history());
}

proof fn lemma_possible_word(h0: u64, h1: u64, h2: u64, h3: u64, h4: u64, h5: u64, h6: u64)
    requires
        h0 <= 6,
        7 <= h1 <= 13,
        14 <= h2 <= 20,
        21 <= h3 <= 27,
        28 <= h4 <= 34,
        35 <= h5 <= 41,
        42 <= h6 <= 48,
    ensures
        (((((1u64 << h0) - 1u64) as u64) | (((1u64 << h1) - (1u64 << 7u64)) as u64) | (((1u64
            << h2) - (1u64 << 14u64)) as u64) | (((1u64 << h3) - (1u64 << 21u64)) as u64) | (((
        1u64 << h4) - (1u64 << 28u64)) as u64) | (((1u64 << h5) - (1u64 << 35u64)) as u64) | (((
        1u64 << h6) - (1u64 << 42u64)) as u64)) + BOTTOM) == (1u64 << h0) | (1u64 << h1) | (1u64
            << h2) | (1u64 << h3) | (1u64 << h4) | (1u64 << h5) | (1u64 << h6),
{
    assert(h0 <= 6 && 7 <= h1 <= 13 && 14 <= h2 <= 20 && 21 <= h3 <= 27 && 28 <= h4 <= 34 && 35
        <= h5 <= 41 && 42 <= h6 <= 48 ==> (((((1u64 << h0) - 1u64) as u64) | (((1u64 << h1) - (
    1u64 << 7u64)) as u64) | (((1u64 << h2) - (1u64 << 14u64)) as u64) | (((1u64 << h3) - (1u64
        << 21u64)) as u64) | (((1u64 << h4) - (1u64 << 28u64)) as u64) | (((1u64 << h5) - (1u64
        << 35u64)) as u64) | (((1u64 << h6) - (1u64 << 42u64)) as u64)) + 0b0000001_0000001_0000001_0000001_0000001_0000001_0000001u64) == (1u64 << h0) | (1u64 << h1) | (1u64
            << h2) | (1u64 << h3) | (1u64 << h4) | (1u64 << h5) | (1u64 << h6)) by (bit_vector);
}

/// Cells `7 * c .. h` of column `c`, as a word.
pub open spec fn column_cells(h: u64, c: int) -> u64 {
    ((1u64 << h) - (1u64 << ((7 * c) as u64))) as u64
}

/// Some column `c` holds cell `i` below its height.
pub open spec fn occupied(hist: Seq<usize>, i: int) -> bool {
    exists|c: int| 0 <= c < 7 && 7 * c <= i < #[trigger] column_height(hist, c)
}

proof fn lemma_column_cells(h: u64, c: int, i: int)
    requires
        0 <= c < 7,
        7 * c <= h <= 7 * c + 6,
    ensures
        has_bit(column_cells(h, c), i) == (7 * c <= i < h),
{
    if 0 <= i < 64 {
        let s = (7 * c) as u64;
        let k = i as u64;
        assert(s <= h && h < 64 && k < 64 ==> (((((1u64 << h) - (1u64 << s)) as u64) >> k) & 1
            == 1 <==> s <= k && k < h)) by (bit_vector);
    }
}

/// The occupied cells are exactly those below the column heights.
proof fn lemma_union(hist: Seq<usize>)
    requires
        legal(hist),
    ensures
        forall|i: int| #[trigger] has_bit(stones(hist, 0) | stones(hist, 1), i) == occupied(hist, i),
    decreases hist.len(),
{
    broadcast use group_bits;

    if hist.len() == 0 {
        assert forall|i: int| #[trigger] has_bit(stones(hist, 0) | stones(hist, 1), i) == occupied(
            hist,
            i,
        ) by {
            assert(0u64 | 0u64 == 0u64) by (bit_vector);
            lemma_nonzero_iff_bit(0u64);
            if occupied(hist, i) {
                let c = choose|c: int| 0 <= c < 7 && 7 * c <= i < #[trigger] column_height(hist, c);
            }
        }
    } else {
        let prev = hist.drop_last();
        let col = hist.last() as int;
        let p = prev.len() as int % 2;
        let h = column_height(prev, col);
        lemma_union(prev);
        lemma_legal_counts(hist);
        lemma_legal_counts(prev);
        assert(0 <= col < 7);
        assert forall|i: int| #[trigger] has_bit(stones(hist, 0) | stones(hist, 1), i) == occupied(
            hist,
            i,
        ) by {
            assert(has_bit(stones(prev, 0) | stones(prev, 1), i) == occupied(prev, i));
            assert(has_bit(stones(prev, 0) | stones(prev, 1), h) == occupied(prev, h));
            if occupied(prev, h) {
                let c = choose|c: int| 0 <= c < 7 && 7 * c <= h < #[trigger] column_height(prev, c);
                assert(count_col(prev, c) <= 6);
            }
            if occupied(hist, i) {
                let c = choose|c: int| 0 <= c < 7 && 7 * c <= i < #[trigger] column_height(hist, c);
                if i != h {
                    assert(7 * c <= i < column_height(prev, c));
                }
            }
            if occupied(prev, i) {
                let c = choose|c: int| 0 <= c < 7 && 7 * c <= i < #[trigger] column_height(prev, c);
                assert(7 * c <= i < column_height(hist, c));
            }
            if i == h {
                assert(7 * col <= i < column_height(hist, col));
            }
        }
    }
}

/// The cells playable now are the heights of the columns that are not full.
pub proof fn lemma_possible_cells(b: Board)
    requires
        b.wf(),
    ensures
        forall|i: int|
            #[trigger] has_bit(possible_cells(b), i) <==> exists|c: int|
                0 <= c < 7 && i == b.heights[c] && b.playable(c),
{
    broadcast use group_bits;

    let hist = b.history();
    lemma_legal_counts(hist);
    lemma_union(hist);
    let h0 = b.heights[0];
    let h1 = b.heights[1];
    let h2 = b.heights[2];
    let h3 = b.heights[3];
    let h4 = b.heights[4];
    let h5 = b.heights[5];
    let h6 = b.heights[6];
    assert forall|c: int| 0 <= c < 7 implies 7 * c <= #[trigger] b.heights[c] <= 7 * c + 6 by {
        assert(b.heights[c] == column_height(hist, c));
    }
    let f = column_cells(h0, 0) | column_cells(h1, 1) | column_cells(h2, 2) | column_cells(h3, 3)
        | column_cells(h4, 4) | column_cells(h5, 5) | column_cells(h6, 6);
    let u = b.boards[0] | b.boards[1];
    assert forall|i: int| 0 <= i < 64 implies has_bit(u, i) == has_bit(f, i) by {
        lemma_column_cells(h0, 0, i);
        lemma_column_cells(h1, 1, i);
        lemma_column_cells(h2, 2, i);
        lemma_column_cells(h3, 3, i);
        lemma_column_cells(h4, 4, i);
        lemma_column_cells(h5, 5, i);
        lemma_column_cells(h6, 6, i);
        assert(has_bit(u, i) == occupied(hist, i));
        if occupied(hist, i) {
            let c = choose|c: int| 0 <= c < 7 && 7 * c <= i < #[trigger] column_height(hist, c);
            assert(b.heights[c] == column_height(hist, c));
        }
        if has_bit(f, i) {
            let c: int = if 0 <= i < h0 {
                0
            } else if 7 <= i < h1 {
                1
            } else if 14 <= i < h2 {
                2
            } else if 21 <= i < h3 {
                3
            } else if 28 <= i < h4 {
                4
            } else if 35 <= i < h5 {
                5
            } else {
                6
            };
            assert(b.heights[c] == column_height(hist, c));
        }
    }
    lemma_bits_ext(u, f);
    assert(column_cells(h0, 0) == ((1u64 << h0) - 1u64) as u64) by {
        assert(1u64 << 0u64 == 1u64) by (bit_vector);
    }
    lemma_possible_word(h0, h1, h2, h3, h4, h5, h6);
    assert(possible_cells(b) == heights_word(b) & !TOP);
    lemma_heights_word_bits(b);

}

/// One bit at the height of every column.
pub open spec fn heights_word(b: Board) -> u64 {
    (1u64 << b.heights[0]) | (1u64 << b.heights[1]) | (1u64 << b.heights[2]) | (1u64
        << b.heights[3]) | (1u64 << b.heights[4]) | (1u64 << b.heights[5]) | (1u64
        << b.heights[6])
}

#[verifier::rlimit(50)]
proof fn lemma_heights_word_bits(b: Board)
    requires
        forall|c: int| 0 <= c < 7 ==> 7 * c <= #[trigger] b.heights[c] <= 7 * c + 6,
    ensures
        forall|i: int|
            #[trigger] has_bit(heights_word(b) & !TOP, i) <==> exists|c: int|
                0 <= c < 7 && i == b.heights[c] && b.playable(c),
{
    let h0 = b.heights[0];
    let h1 = b.heights[1];
    let h2 = b.heights[2];
    let h3 = b.heights[3];
    let h4 = b.heights[4];
    let h5 = b.heights[5];
    let h6 = b.heights[6];
    let w = heights_word(b);
    assert forall|i: int|
        #[trigger] has_bit(w & !TOP, i) <==> exists|c: int|
            0 <= c < 7 && i == b.heights[c] && b.playable(c) by {
        broadcast use group_bits;

        if 0 <= i < 64 {
            lemma_guard_bits(i as u64);
        }
        assert(has_bit(w, i) == (i == h0 || i == h1 || i == h2 || i == h3 || i == h4 || i == h5
            || i == h6));
        assert(has_bit(w & !TOP, i) == (has_bit(w, i) && !is_guard_cell(i)));
        if exists|c: int| 0 <= c < 7 && i == b.heights[c] && b.playable(c) {
            let c = choose|c: int| 0 <= c < 7 && i == b.heights[c] && b.playable(c);
            assert(7 * c <= b.heights[c] <= 7 * c + 6);
            if c == 0 {
                assert(i == h0 && i < 6);
            } else if c == 1 {
                assert(i == h1 && 7 <= i < 13);
            } else if c == 2 {
                assert(i == h2 && 14 <= i < 20);
            } else if c == 3 {
                assert(i == h3 && 21 <= i < 27);
            } else if c == 4 {
                assert(i == h4 && 28 <= i < 34);
            } else if c == 5 {
                assert(i == h5 && 35 <= i < 41);
            } else {
                assert(i == h6 && 42 <= i < 48);
            }
        }
        if has_bit(w & !TOP, i) {
            let c: int = if i == h0 {
                0
            } else if i == h1 {
                1
            } else if i == h2 {
                2
            } else if i == h3 {
                3
            } else if i == h4 {
                4
            } else if i == h5 {
                5
            } else {
                6
            };
            assert(i == b.heights[c]);
            assert(7 * c <= b.heights[c] <= 7 * c + 6);
            assert(b.playable(c));
        }
    }
}

proof fn lemma_line_wins(x: u64, y: u64, j: int, d: int)
    requires
        is_direction(d),
        completes_line(x, j, d),
        forall|k: int| #[trigger] has_bit(y, k) == (has_bit(x, k) || k == j),
    ensures
        wins(y),
{
    if three_set(x, j, d, 1, 2, 3) {
        assert(four_in_line(y, j, d));
    } else if three_set(x, j, d, -1, 1, 2) {
        assert(four_in_line(y, j - d, d));
    } else if three_set(x, j, d, -2, -1, 1) {
        assert(four_in_line(y, j - 2 * d, d));
    } else {
        assert(four_in_line(y, j - 3 * d, d));
    }
}

/// Setting an empty winning cell gives four in a row.
pub proof fn lemma_winning_cell_wins(x: u64, j: int)
    requires
        winning_cell(x, j),
        !has_bit(x, j),
    ensures
        wins(x ^ (1u64 << (j as u64))),
{
    broadcast use group_bits;

    let y = x ^ (1u64 << (j as u64));
    assert forall|k: int| #[trigger] has_bit(y, k) == (has_bit(x, k) || k == j) by {}
    if three_set(x, j, 1, -3, -2, -1) {
        assert(is_direction(1) && four_in_line(y, j - 3, 1));
    } else if completes_line(x, j, 6) {
        lemma_line_wins(x, y, j, 6);
    } else if completes_line(x, j, 7) {
        lemma_line_wins(x, y, j, 7);
    } else {
        lemma_line_wins(x, y, j, 8);
    }
}

/// The cell at a column's height is empty.
pub proof fn lemma_height_empty(hist: Seq<usize>, c: int, p: int)
    requires
        legal(hist),
        0 <= c < 7,
        count_col(hist, c) < 6,
        p == 0 || p == 1,
    ensures
        !has_bit(stones(hist, p), column_height(hist, c)),
{
    broadcast use group_bits;

    lemma_union(hist);
    lemma_legal_counts(hist);
    let j = column_height(hist, c);
    assert(has_bit(stones(hist, 0) | stones(hist, 1), j) == occupied(hist, j));
    if occupied(hist, j) {
        let c2 = choose|c2: int| 0 <= c2 < 7 && 7 * c2 <= j < #[trigger] column_height(hist, c2);
        assert(count_col(hist, c2) <= 6);
    }
    assert(!has_bit(stones(hist, 0), j) && !has_bit(stones(hist, 1), j));
}

proof fn lemma_new_win_core(x: u64, y: u64, i: int)
    requires
        forall|k: int| #[trigger] has_bit(y, k) == (has_bit(x, k) || k == i),
        !wins(x),
        wins(y),
        !has_bit(x, i + 1),
        0 <= i < 49,
        !is_guard_cell(i),
    ensures
        winning_cell(x, i),
{
    let (i0, d) = choose|i0: int, d: int| is_direction(d) && four_in_line(y, i0, d);
    if !(i == i0 || i == i0 + d || i == i0 + 2 * d || i == i0 + 3 * d) {
        assert(four_in_line(x, i0, d));
    }
    if i == i0 {
        assert(has_bit(y, i + d));
        assert(three_set(x, i, d, 1, 2, 3));
    } else if i == i0 + d {
        assert(has_bit(y, i0 + 2 * d));
        assert(three_set(x, i, d, -1, 1, 2));
    } else if i == i0 + 2 * d {
        assert(has_bit(y, i0 + 3 * d));
        assert(three_set(x, i, d, -2, -1, 1));
    } else {
        assert(has_bit(y, i0));
        assert(three_set(x, i, d, -3, -2, -1));
    }
}

/// Four in a row made by a stone at the height of a column, where there was none
/// before, passes through that stone: the cell was a winning cell.
pub proof fn lemma_new_win_cell(hist: Seq<usize>, c: int, p: int)
    requires
        legal(hist),
        0 <= c < 7,
        count_col(hist, c) < 6,
        p == 0 || p == 1,
        !wins(stones(hist, p)),
        wins(stones(hist, p) ^ (1u64 << (column_height(hist, c) as u64))),
    ensures
        winning_cell(stones(hist, p), column_height(hist, c)),
{
    let x = stones(hist, p);
    let i = column_height(hist, c);
    let y = x ^ (1u64 << (i as u64));
    lemma_height_empty(hist, c, p);
    lemma_union(hist);
    lemma_legal_counts(hist);
    assert forall|k: int| #[trigger] has_bit(y, k) == (has_bit(x, k) || k == i) by {
        broadcast use group_bits;

    }
    assert(!has_bit(x, i + 1)) by {
        broadcast use group_bits;

        assert(has_bit(stones(hist, 0) | stones(hist, 1), i + 1) == occupied(hist, i + 1));
        if occupied(hist, i + 1) {
            let c2 = choose|c2: int|
                0 <= c2 < 7 && 7 * c2 <= i + 1 < #[trigger] column_height(hist, c2);
            assert(count_col(hist, c2) <= 6);
        }
    }
    lemma_new_win_core(x, y, i);
}

/// Position key of the position after `hist`: the occupied cells shifted up by one in
/// every column, together with the stones of the side to move.
pub open spec fn hist_key(hist: Seq<usize>) -> u64 {
    (((stones(hist, 0) | stones(hist, 1)) + BOTTOM) as u64) | stones(hist, hist.len() as int % 2)
}

/// Height of column `c` as a bit index word position.
pub open spec fn height_bit(hist: Seq<usize>, c: int) -> u64 {
    1u64 << (column_height(hist, c) as u64)
}

/// No cell holds stones of both players.
proof fn lemma_disjoint(hist: Seq<usize>)
    requires
        legal(hist),
    ensures
        forall|i: int| !(#[trigger] has_bit(stones(hist, 0), i) && has_bit(stones(hist, 1), i)),
    decreases hist.len(),
{
    broadcast use group_bits;

    if hist.len() > 0 {
        let prev = hist.drop_last();
        let col = hist.last() as int;
        lemma_disjoint(prev);
        lemma_legal_counts(hist);
        lemma_height_empty(prev, col, 0);
        lemma_height_empty(prev, col, 1);
        lemma_legal_counts(prev);
        assert(column_height(prev, col) < 49);
        assert forall|i: int| !(#[trigger] has_bit(stones(hist, 0), i) && has_bit(stones(hist, 1), i)) by {
            assert(!(has_bit(stones(prev, 0), i) && has_bit(stones(prev, 1), i)));
        }
    } else {
        assert forall|i: int| !(#[trigger] has_bit(stones(hist, 0), i) && has_bit(stones(hist, 1), i)) by {
            if 0 <= i < 64 {
                let k = i as u64;
                assert((0u64 >> k) & 1 == 0) by (bit_vector);
            }
        }
    }
}

/// The key holds a bit at every column height and the stones of the side to move,
/// which lie below the heights.
pub(crate) proof fn lemma_key_bits(hist: Seq<usize>)
    requires
        legal(hist),
    ensures
        forall|i: int|
            #[trigger] has_bit(hist_key(hist), i) == ((exists|c: int|
                0 <= c < 7 && i == #[trigger] column_height(hist, c)) || has_bit(
                stones(hist, hist.len() as int % 2),
                i,
            )),
        forall|i: int|
            #[trigger] has_bit(stones(hist, hist.len() as int % 2), i) ==> occupied(hist, i),
{
    broadcast use group_bits;

    lemma_legal_counts(hist);
    lemma_union(hist);
    let h0 = column_height(hist, 0) as u64;
    let h1 = column_height(hist, 1) as u64;
    let h2 = column_height(hist, 2) as u64;
    let h3 = column_height(hist, 3) as u64;
    let h4 = column_height(hist, 4) as u64;
    let h5 = column_height(hist, 5) as u64;
    let h6 = column_height(hist, 6) as u64;
    assert(count_col(hist, 0) <= 6 && count_col(hist, 1) <= 6 && count_col(hist, 2) <= 6
        && count_col(hist, 3) <= 6 && count_col(hist, 4) <= 6 && count_col(hist, 5) <= 6
        && count_col(hist, 6) <= 6);
    let f = column_cells(h0, 0) | column_cells(h1, 1) | column_cells(h2, 2) | column_cells(h3, 3)
        | column_cells(h4, 4) | column_cells(h5, 5) | column_cells(h6, 6);
    let u = stones(hist, 0) | stones(hist, 1);
    assert forall|i: int| 0 <= i < 64 implies has_bit(u, i) == has_bit(f, i) by {
        lemma_column_cells(h0, 0, i);
        lemma_column_cells(h1, 1, i);
        lemma_column_cells(h2, 2, i);
        lemma_column_cells(h3, 3, i);
        lemma_column_cells(h4, 4, i);
        lemma_column_cells(h5, 5, i);
        lemma_column_cells(h6, 6, i);
        assert(has_bit(u, i) == occupied(hist, i));
        if occupied(hist, i) {
            let c = choose|c: int| 0 <= c < 7 && 7 * c <= i < #[trigger] column_height(hist, c);
        }
        if has_bit(f, i) {
            let c: int = if 0 <= i < h0 {
                0
            } else if 7 <= i < h1 {
                1
            } else if 14 <= i < h2 {
                2
            } else if 21 <= i < h3 {
                3
            } else if 28 <= i < h4 {
                4
            } else if 35 <= i < h5 {
                5
            } else {
                6
            };
            assert(7 * c <= i < column_height(hist, c));
        }
    }
    lemma_bits_ext(u, f);
    assert(column_cells(h0, 0) == ((1u64 << h0) - 1u64) as u64) by {
        assert(1u64 << 0u64 == 1u64) by (bit_vector);
    }
    lemma_possible_word(h0, h1, h2, h3, h4, h5, h6);
    let cur = stones(hist, hist.len() as int % 2);
    assert forall|i: int| #[trigger] has_bit(cur, i) implies occupied(hist, i) by {
        assert(has_bit(u, i) == occupied(hist, i));
    }
    assert forall|i: int|
        #[trigger] has_bit(hist_key(hist), i) == ((exists|c: int|
            0 <= c < 7 && i == #[trigger] column_height(hist, c)) || has_bit(cur, i)) by {
        if exists|c: int| 0 <= c < 7 && i == #[trigger] column_height(hist, c) {
            let c = choose|c: int| 0 <= c < 7 && i == #[trigger] column_height(hist, c);
            if c == 0 {
                assert(i == h0);
            } else if c == 1 {
                assert(i == h1);
            } else if c == 2 {
                assert(i == h2);
            } else if c == 3 {
                assert(i == h3);
            } else if c == 4 {
                assert(i == h4);
            } else if c == 5 {
                assert(i == h5);
            } else {
                assert(i == h6);
            }
        }
        if i == h0 {
            assert(i == column_height(hist, 0));
        } else if i == h1 {
            assert(i == column_height(hist, 1));
        } else if i == h2 {
            assert(i == column_height(hist, 2));
        } else if i == h3 {
            assert(i == column_height(hist, 3));
        } else if i == h4 {
            assert(i == column_height(hist, 4));
        } else if i == h5 {
            assert(i == column_height(hist, 5));
        } else if i == h6 {
            assert(i == column_height(hist, 6));
        }
    }
}

proof fn lemma_heights_from_key(h1: Seq<usize>, h2: Seq<usize>, c: int)
    requires
        legal(h1),
        legal(h2),
        hist_key(h1) == hist_key(h2),
        0 <= c < 7,
    ensures
        column_height(h1, c) <= column_height(h2, c),
{
    lemma_key_bits(h1);
    lemma_key_bits(h2);
    lemma_legal_counts(h1);
    lemma_legal_counts(h2);
    let x = column_height(h1, c);
    let y = column_height(h2, c);
    if x > y {
        // bit x of the key of h1 must show in the key of h2
        assert(has_bit(hist_key(h1), x));
        assert(has_bit(hist_key(h2), x));
        if exists|c2: int| 0 <= c2 < 7 && x == #[trigger] column_height(h2, c2) {
            let c2 = choose|c2: int| 0 <= c2 < 7 && x == #[trigger] column_height(h2, c2);
            assert(count_col(h2, c2) <= 6);
        } else {
            assert(has_bit(stones(h2, h2.len() as int % 2), x));
            assert(occupied(h2, x));
            let c2 = choose|c2: int| 0 <= c2 < 7 && 7 * c2 <= x < #[trigger] column_height(h2, c2);
            assert(count_col(h2, c2) <= 6);
        }
    }
}

proof fn lemma_cur_in_key(h1: Seq<usize>, h2: Seq<usize>, i: int)
    requires
        legal(h1),
        legal(h2),
        hist_key(h1) == hist_key(h2),
        h1.len() == h2.len(),
        forall|c: int| 0 <= c < 7 ==> #[trigger] count_col(h1, c) == count_col(h2, c),
        has_bit(stones(h1, h1.len() as int % 2), i),
    ensures
        has_bit(stones(h2, h2.len() as int % 2), i),
{
    lemma_key_bits(h1);
    lemma_key_bits(h2);
    lemma_legal_counts(h1);
    assert(occupied(h1, i));
    let c = choose|c: int| 0 <= c < 7 && 7 * c <= i < #[trigger] column_height(h1, c);
    assert(count_col(h1, c) <= 6);
    assert(has_bit(hist_key(h1), i));
    assert(has_bit(hist_key(h2), i));
    if exists|c2: int| 0 <= c2 < 7 && i == #[trigger] column_height(h2, c2) {
        let c2 = choose|c2: int| 0 <= c2 < 7 && i == #[trigger] column_height(h2, c2);
        assert(count_col(h1, c2) == count_col(h2, c2));
        assert(count_col(h1, c2) <= 6);
        assert(false);
    }
}

/// Equal keys mean the same stones, column counts and number of moves.
pub proof fn lemma_key_position(h1: Seq<usize>, h2: Seq<usize>)
    requires
        legal(h1),
        legal(h2),
        hist_key(h1) == hist_key(h2),
    ensures
        same_position(h1, h2),
{
    broadcast use group_bits;

    lemma_legal_counts(h1);
    lemma_legal_counts(h2);
    assert forall|c: int| 0 <= c < 7 implies #[trigger] count_col(h1, c) == count_col(h2, c) by {
        lemma_heights_from_key(h1, h2, c);
        lemma_heights_from_key(h2, h1, c);
    }
    reveal_with_fuel(filled, 8);
    assert(count_col(h1, 0) == count_col(h2, 0) && count_col(h1, 1) == count_col(h2, 1)
        && count_col(h1, 2) == count_col(h2, 2) && count_col(h1, 3) == count_col(h2, 3)
        && count_col(h1, 4) == count_col(h2, 4) && count_col(h1, 5) == count_col(h2, 5)
        && count_col(h1, 6) == count_col(h2, 6));
    assert(h1.len() == h2.len());
    let p = h1.len() as int % 2;
    let q = 1 - p;
    lemma_key_bits(h1);
    lemma_key_bits(h2);
    lemma_disjoint(h1);
    lemma_disjoint(h2);
    lemma_union(h1);
    lemma_union(h2);
    assert forall|i: int| occupied(h1, i) == occupied(h2, i) by {
        if occupied(h1, i) {
            let c = choose|c: int| 0 <= c < 7 && 7 * c <= i < #[trigger] column_height(h1, c);
            assert(7 * c <= i < column_height(h2, c));
        }
        if occupied(h2, i) {
            let c = choose|c: int| 0 <= c < 7 && 7 * c <= i < #[trigger] column_height(h2, c);
            assert(7 * c <= i < column_height(h1, c));
        }
    }
    assert forall|i: int| 0 <= i < 64 implies has_bit(stones(h1, p), i) == has_bit(stones(h2, p), i) by {
        assert(has_bit(hist_key(h1), i) == has_bit(hist_key(h2), i));
        if has_bit(stones(h1, p), i) {
            lemma_cur_in_key(h1, h2, i);
        }
        if has_bit(stones(h2, p), i) {
            lemma_cur_in_key(h2, h1, i);
        }
    }
    lemma_bits_ext(stones(h1, p), stones(h2, p));
    assert forall|i: int| 0 <= i < 64 implies has_bit(stones(h1, q), i) == has_bit(stones(h2, q), i) by {
        assert(has_bit(stones(h1, 0) | stones(h1, 1), i) == occupied(h1, i));
        assert(has_bit(stones(h2, 0) | stones(h2, 1), i) == occupied(h2, i));
        assert(!(has_bit(stones(h1, 0), i) && has_bit(stones(h1, 1), i)));
        assert(!(has_bit(stones(h2, 0), i) && has_bit(stones(h2, 1), i)));
        assert(has_bit(stones(h1, p), i) == has_bit(stones(h2, p), i));
    }
    lemma_bits_ext(stones(h1, q), stones(h2, q));
}

/// Two positions share a key exactly when they hold the same stones after the same
/// number of moves.
pub proof fn lemma_key_canonical(h1: Seq<usize>, h2: Seq<usize>)
    requires
        legal(h1),
        legal(h2),
    ensures
        hist_key(h1) == hist_key(h2) <==> same_position(h1, h2),
{
    if hist_key(h1) == hist_key(h2) {
        lemma_key_position(h1, h2);
    }
}

/// Keys use only the 49 cells of the board.
proof fn lemma_key_below(hist: Seq<usize>)
    requires
        legal(hist),
    ensures
        hist_key(hist) < 1u64 << 49u64,
{
    broadcast use group_bits;

    let k = hist_key(hist);
    lemma_key_bits(hist);
    lemma_legal_counts(hist);
    let t = k >> 49u64;
    assert forall|i: int| !has_bit(t, i) by {
        if 0 <= i < 64 && has_bit(k, i + 49) {
            if exists|c: int| 0 <= c < 7 && i + 49 == #[trigger] column_height(hist, c) {
                let c = choose|c: int| 0 <= c < 7 && i + 49 == #[trigger] column_height(hist, c);
                assert(count_col(hist, c) <= 6);
            } else {
                assert(occupied(hist, i + 49));
                let c = choose|c: int| 0 <= c < 7 && 7 * c <= i + 49 < #[trigger] column_height(hist, c);
                assert(count_col(hist, c) <= 6);
            }
        }
    }
    lemma_nonzero_iff_bit(t);
    assert(k >> 49u64 == 0 ==> k < 1u64 << 49u64) by (bit_vector);
}

} // verus!
