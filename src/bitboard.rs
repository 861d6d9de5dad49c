//! A plainer bit-packed board for the exhaustive searches of `evaluation`: columns
//! are named `1..=7` in move strings and no move is refused after a win.
use vstd::prelude::*;
use vstd::string::StringSliceAdditionalSpecFns;

use crate::bits::{group_bits, has_bit, lemma_nonzero_iff_bit};
use crate::board::{
    column_height, count_col, four_in_line, is_direction, is_guard_cell, lemma_and_single,
    lemma_filled_bound, lemma_guard_bits, lemma_legal_counts, lemma_xor_cancel, legal, stones,
    wins, TOP,
};

pub use crate::board::Token;

verus! {

/// Columns named by a string of digits `'1'..='7'`.
pub open spec fn columns_of_one_based(bs: Seq<u8>) -> Seq<usize> {
    bs.map_values(|c: u8| (c - 49) as usize)
}

/// Each byte is a digit `'1'..='7'` naming a column that still has room.
pub open spec fn replayable_one_based(bs: Seq<u8>) -> bool
    decreases bs.len(),
{
    bs.len() == 0 || {
        let prev = bs.drop_last();
        &&& replayable_one_based(prev)
        &&& 49 <= bs.last() < 56
        &&& count_col(columns_of_one_based(prev), bs.last() - 49) < 6
    }
}

proof fn lemma_replayable_one_based_prefix(bs: Seq<u8>, n: int)
    requires
        replayable_one_based(bs),
        0 <= n <= bs.len(),
    ensures
        replayable_one_based(bs.take(n)),
    decreases bs.len(),
{
    if n < bs.len() {
        assert(bs.drop_last().take(n) =~= bs.take(n));
        lemma_replayable_one_based_prefix(bs.drop_last(), n);
    } else {
        assert(bs.take(n) =~= bs);
    }
}

/// The two-step shift test of direction `d` finds exactly the runs of four along `d`.
proof fn lemma_direction(x: u64, d: u64, d2: u64)
    requires
        d == 1 || d == 6 || d == 7 || d == 8,
        d2 == 2 * d,
    ensures
        ((x & (x >> d)) & ((x & (x >> d)) >> d2) != 0) <==> exists|i: int|
            four_in_line(x, i, d as int),
{
    broadcast use group_bits;

    let bb = x & (x >> d);
    let w = bb & (bb >> d2);
    assert forall|i: int| #[trigger] has_bit(w, i) <==> four_in_line(x, i, d as int) by {}
    lemma_nonzero_iff_bit(w);
    if w != 0 {
        let i = choose|i: int| has_bit(w, i);
        assert(four_in_line(x, i, d as int));
    }
    if exists|i: int| four_in_line(x, i, d as int) {
        let i = choose|i: int| four_in_line(x, i, d as int);
        assert(has_bit(w, i));
    }
}

/// Bit-packed position with its move history.
#[derive(Clone, Copy)]
pub struct Bitboard {
    /// Stones of the first (red) and of the second (yellow) player.
    pub boards: [u64; 2],
    /// Bit index of the lowest empty cell of each column.
    pub height: [u64; 7],
    /// Columns played so far; only the first `move_count` entries are live.
    pub moves: [usize; 42],
    pub move_count: usize,
}

impl Bitboard {
    /// Number of columns.
    pub const WIDTH: usize = 7;

    /// Number of playable rows.
    pub const HEIGHT: usize = 6;

    /// Columns played so far, oldest first.
    pub open spec fn history(&self) -> Seq<usize> {
        self.moves@.subrange(0, self.move_count as int)
    }

    /// The fields are those obtained by replaying `history` from the empty board.
    pub open spec fn wf(&self) -> bool {
        &&& self.move_count <= 42
        &&& legal(self.history())
        &&& forall|c: int| 0 <= c < 7 ==> self.height[c] == column_height(self.history(), c)
        &&& self.boards[0] == stones(self.history(), 0)
        &&& self.boards[1] == stones(self.history(), 1)
    }

    /// Every column height lies within its column, guard cell included.
    pub open spec fn heights_in_columns(&self) -> bool {
        forall|c: int| 0 <= c < 7 ==> 7 * c <= #[trigger] self.height[c] <= 7 * c + 6
    }

    /// Column `c` still has an empty cell.
    pub open spec fn open_column(&self, c: int) -> bool {
        0 <= c < 7 && self.height[c] < 7 * c + 6
    }

    /// The open columns below `n`, in increasing order.
    pub open spec fn open_columns(&self, n: int) -> Seq<usize>
        decreases n,
    {
        if n <= 0 {
            Seq::empty()
        } else if self.open_column(n - 1) {
            self.open_columns(n - 1).push((n - 1) as usize)
        } else {
            self.open_columns(n - 1)
        }
    }

    /// The empty board.
    pub fn new() -> (r: Bitboard)
        ensures
            r.wf(),
            r.move_count == 0,
    {
        let r = Bitboard {
            boards: [0, 0],
            height: [0, 7, 14, 21, 28, 35, 42],
            moves: [0;42],
            move_count: 0,
        };
        assert(r.history() =~= Seq::<usize>::empty());
        r
    }

    /// Drops a stone of the side to move into `col`.
    pub fn make_move(&mut self, col: usize)
        requires
            old(self).wf(),
            old(self).open_column(col as int),
        ensures
            final(self).wf(),
            final(self).history() == old(self).history().push(col),
            final(self).move_count == old(self).move_count + 1,
    {
        let ghost hist = self.history();
        let ghost old_h = self.height;
        proof {
            assert(old_h[col as int] == column_height(hist, col as int));
            lemma_legal_counts(hist);
            lemma_filled_bound(hist, 7, col as int);
        }
        let p = self.move_count % 2;
        let bit: u64 = 1u64 << self.height[col];
        self.boards[p] = self.boards[p] ^ bit;
        self.moves[self.move_count] = col;
        self.height[col] = self.height[col] + 1;
        self.move_count = self.move_count + 1;
        proof {
            let nh = self.history();
            assert(nh =~= hist.push(col));
            assert(nh.drop_last() =~= hist);
            assert forall|c: int| 0 <= c < 7 implies self.height[c] == column_height(nh, c) by {
                assert(old_h[c] == column_height(hist, c));
            }
        }
    }

    /// Takes back the last stone.
    pub fn undo_move(&mut self)
        requires
            old(self).wf(),
            old(self).move_count > 0,
        ensures
            final(self).wf(),
            final(self).history() == old(self).history().drop_last(),
            final(self).move_count == old(self).move_count - 1,
    {
        let ghost hist = self.history();
        let ghost prev = hist.drop_last();
        let ghost old_h = self.height;
        proof {
            let last = hist.last() as int;
            assert(old_h[last] == column_height(hist, last));
            lemma_legal_counts(hist);
            assert(hist.last() == self.moves[self.move_count - 1]);
        }
        self.move_count = self.move_count - 1;
        let col = self.moves[self.move_count];
        self.height[col] = self.height[col] - 1;
        let p = self.move_count % 2;
        let bit: u64 = 1u64 << self.height[col];
        self.boards[p] = self.boards[p] ^ bit;
        proof {
            assert(self.history() =~= prev);
            lemma_xor_cancel(stones(prev, p as int), bit);
            assert forall|c: int| 0 <= c < 7 implies self.height[c] == column_height(prev, c) by {
                assert(old_h[c] == column_height(hist, c));
            }
        }
    }

    /// Whether the player who made the last move has four in a row.
    pub fn has_won(&self) -> (r: bool)
        requires
            self.move_count <= 42,
        ensures
            r == wins(self.boards[(self.move_count + 1) % 2]),
    {
        let bitboard = self.boards[(self.move_count + 1) % 2];
        let dirs: [u64; 4] = [1, 7, 6, 8];
        let mut k: usize = 0;
        while k < 4
            invariant
                k <= 4,
                self.move_count <= 42,
                bitboard == self.boards[(self.move_count + 1) % 2],
                dirs@ == seq![1u64, 7u64, 6u64, 8u64],
                forall|j: int, i: int|
                    0 <= j < k ==> !#[trigger] four_in_line(bitboard, i, dirs@[j] as int),
            decreases 4 - k,
        {
            let dir = dirs[k];
            let dir2 = 2 * dir;
            proof {
                lemma_direction(bitboard, dir, dir2);
            }
            let bb = bitboard & (bitboard >> dir);
            if bb & (bb >> dir2) != 0 {
                proof {
                    assert(dir == 1 || dir == 6 || dir == 7 || dir == 8);
                    let i = choose|i: int| four_in_line(bitboard, i, dir as int);
                    assert(is_direction(dir as int) && four_in_line(bitboard, i, dir as int));

                }
                return true;
            }
            k = k + 1;
        }
        proof {
            assert forall|i: int, d: int| is_direction(d) implies !four_in_line(bitboard, i, d) by {
                if d == 1 {
                    assert(dirs@[0] == 1);
                } else if d == 7 {
                    assert(dirs@[1] == 7);
                } else if d == 6 {
                    assert(dirs@[2] == 6);
                } else {
                    assert(dirs@[3] == 8);
                }
            }
        }
        false
    }

    /// Whether `col` still has an empty cell.
    pub(crate) fn column_open(&self, col: usize) -> (r: bool)
        requires
            self.heights_in_columns(),
            col < 7,
        ensures
            r == self.open_column(col as int),
    {
        proof {
            assert(7 * col <= self.height[col as int] <= 7 * col + 6);
            lemma_guard_bits(self.height[col as int]);
            lemma_and_single(TOP, self.height[col as int]);
        }
        (TOP & (1u64 << self.height[col])) == 0
    }

    /// The columns that still have an empty cell, in increasing order.
    pub fn list_moves(&self) -> (r: Vec<usize>)
        requires
            self.heights_in_columns(),
        ensures
            r@ == self.open_columns(7),
    {
        let mut moves: Vec<usize> = Vec::with_capacity(7);
        let mut col: usize = 0;
        while col < 7
            invariant
                col <= 7,
                self.heights_in_columns(),
                moves@ == self.open_columns(col as int),
            decreases 7 - col,
        {
            if self.column_open(col) {
                moves.push(col);
            }
            col = col + 1;
        }
        moves
    }

    /// Number of stones on the board.
    pub fn move_count(&self) -> (r: usize)
        ensures
            r == self.move_count,
    {
        self.move_count
    }

    /// Columns played so far, oldest first.
    pub fn moves(&self) -> (r: Vec<usize>)
        requires
            self.move_count <= 42,
        ensures
            r@ == self.history(),
    {
        let mut r: Vec<usize> = Vec::new();
        let mut i: usize = 0;
        while i < self.move_count
            invariant
                self.move_count <= 42,
                i <= self.move_count,
                r@ == self.history().subrange(0, i as int),
            decreases self.move_count - i,
        {
            r.push(self.moves[i]);
            i = i + 1;
            assert(r@ =~= self.history().subrange(0, i as int));
        }
        assert(r@ =~= self.history());
        r
    }

    /// The two stone masks, red first.
    pub fn boards(&self) -> (r: &[u64; 2])
        ensures
            r == &self.boards,
    {
        &self.boards
    }

    /// Owner of the cell in `row` (0 is the top row) of `col`.
    pub fn get(&self, row: usize, col: usize) -> (r: Token)
        requires
            row < 6,
            col < 7,
        ensures
            ({
                let i = 7 * col + 5 - row;
                r == if has_bit(self.boards[0], i) {
                    Token::Red
                } else if has_bit(self.boards[1], i) {
                    Token::Yellow
                } else {
                    Token::Empty
                }
            }),
    {
        let k: u64 = (5 - row + col * 7) as u64;
        let pos: u64 = 1u64 << k;
        proof {
            lemma_and_single(self.boards[0], k);
            lemma_and_single(self.boards[1], k);
        }
        if self.boards[0] & pos != 0 {
            Token::Red
        } else if self.boards[1] & pos != 0 {
            Token::Yellow
        } else {
            Token::Empty
        }
    }

    /// Replays a string of column digits `'1'..='7'` from the empty board. `None` when a
    /// character is no such digit or a column is full.
    pub fn from_moves(s: &str) -> (r: Option<Bitboard>)
        ensures
            r.is_some() == replayable_one_based(s.spec_bytes()),
            r matches Some(b) ==> b.wf() && b.history() == columns_of_one_based(s.spec_bytes()),
    {
        let bytes = s.as_bytes();
        let ghost bs = bytes@;
        let mut board = Bitboard::new();
        let mut i: usize = 0;
        assert(board.history() =~= columns_of_one_based(bs.take(0)));
        while i < bytes.len()
            invariant
                bs == s.spec_bytes(),
                bytes@ == bs,
                i <= bs.len(),
                board.wf(),
                board.move_count == i,
                board.history() == columns_of_one_based(bs.take(i as int)),
                replayable_one_based(bs.take(i as int)),
            decreases bs.len() - i,
        {
            let c = bytes[i];
            let ghost next = bs.take(i + 1);
            proof {
                assert(next.drop_last() =~= bs.take(i as int));
                assert(next.last() == c);
                lemma_legal_counts(board.history());
                assert forall|k: int| 0 <= k < 7 implies 7 * k <= #[trigger] board.height[k] <= 7
                    * k + 6 by {
                    assert(board.height[k] == column_height(board.history(), k));
                }
            }
            if c < 49 || c > 55 {
                proof {
                    if replayable_one_based(bs) {
                        lemma_replayable_one_based_prefix(bs, i + 1);
                    }
                }
                return None;
            }
            let col = (c - 49) as usize;
            proof {
                assert(board.height[col as int] == column_height(board.history(), col as int));
            }
            if !board.column_open(col) {
                proof {
                    if replayable_one_based(bs) {
                        lemma_replayable_one_based_prefix(bs, i + 1);
                    }
                }
                return None;
            }
            board.make_move(col);
            i = i + 1;
            assert(board.history() =~= columns_of_one_based(bs.take(i as int)));
        }
        assert(bs.take(i as int) =~= bs);
        Some(board)
    }
}

} // verus!
