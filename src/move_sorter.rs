//! Orders the candidate columns of a node by a heuristic score.
use vstd::prelude::*;

verus! {

/// Scores never decrease along `s`.
pub open spec fn sorted_by_score(s: Seq<(usize, u32)>) -> bool {
    forall|i: int, j: int| 0 <= i < j < s.len() ==> s[i].1 <= s[j].1
}

/// At most seven (column, score) pairs, kept in ascending order of score.
pub struct MoveSorter {
    moves: [(usize, u32); 7],
    len: usize,
}

impl View for MoveSorter {
    type V = Seq<(usize, u32)>;

    closed spec fn view(&self) -> Seq<(usize, u32)> {
        self.moves@.take(self.len as int)
    }
}

impl MoveSorter {
    /// Holds at most seven pairs, in ascending order of score.
    pub closed spec fn wf(&self) -> bool {
        &&& self.len <= 7
        &&& sorted_by_score(self@)
    }

    /// An empty sorter.
    pub fn new() -> (r: MoveSorter)
        ensures
            r.wf(),
            r@ == Seq::<(usize, u32)>::empty(),
    {
        let r = MoveSorter { moves: [(0, 0);7], len: 0 };
        assert(r@ =~= Seq::<(usize, u32)>::empty());
        r
    }

    /// Inserts `(col, score)` after every pair whose score is not above `score` and
    /// before every pair whose score is.
    pub fn add(&mut self, col: usize, score: u32)
        requires
            old(self).wf(),
            old(self)@.len() < 7,
        ensures
            final(self).wf(),
            exists|pos: int|
                {
                    &&& 0 <= pos <= old(self)@.len()
                    &&& final(self)@ == old(self)@.insert(pos, (col, score))
                    &&& forall|i: int| 0 <= i < pos ==> old(self)@[i].1 <= score
                    &&& forall|i: int| pos <= i < old(self)@.len() ==> old(self)@[i].1 > score
                },
    {
        let ghost s = self@;
        let ghost n = self.len as int;
        let mut pos = self.len;
        while 0 < pos && score < self.moves[pos - 1].1
            invariant
                n == s.len(),
                n < 7,
                self.len == n,
                pos <= n,
                sorted_by_score(s),
                forall|i: int| 0 <= i < pos ==> #[trigger] self.moves@[i] == s[i],
                forall|i: int| pos < i <= n ==> #[trigger] self.moves@[i] == s[i - 1],
                forall|i: int| pos <= i < n ==> s[i].1 > score,
            decreases pos,
        {
            self.moves[pos] = self.moves[pos - 1];
            pos = pos - 1;
        }
        self.moves[pos] = (col, score);
        self.len = self.len + 1;
        proof {
            assert(self@ =~= s.insert(pos as int, (col, score)));
            if pos > 0 {
                assert(s[pos - 1].1 <= score);
            }
            assert forall|i: int| 0 <= i < pos implies s[i].1 <= score by {
                if pos > 0 {
                    assert(s[i].1 <= s[pos - 1].1);
                }
            }
            let t = self@;
            assert forall|i: int, j: int| 0 <= i < j < t.len() implies t[i].1 <= t[j].1 by {
                if j < pos {
                } else if j == pos {
                } else if i < pos {
                    assert(s[i].1 <= s[j - 1].1);
                } else if i == pos {
                } else {
                    assert(s[i - 1].1 <= s[j - 1].1);
                }
            }
        }
    }

    /// Removes and returns the column of highest score; among equal scores, the one
    /// added last. `None` when empty.
    pub fn next(&mut self) -> (r: Option<usize>)
        requires
            old(self).wf(),
        ensures
            final(self).wf(),
            old(self)@.len() == 0 ==> r.is_none() && final(self)@ == old(self)@,
            old(self)@.len() > 0 ==> {
                &&& r == Some(old(self)@.last().0)
                &&& final(self)@ == old(self)@.drop_last()
                &&& forall|i: int| 0 <= i < old(self)@.len() ==> old(self)@[i].1 <= old(self)@.last().1
            },
    {
        if 0 < self.len {
            self.len = self.len - 1;
            proof {
                assert(self@ =~= old(self)@.drop_last());
            }
            Some(self.moves[self.len].0)
        } else {
            None
        }
    }
}

} // verus!
