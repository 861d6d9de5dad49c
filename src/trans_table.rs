//! Fixed-size transposition table. Each bucket is one word:
//!
//! ```text
//! |   key   |  score - MIN_SCORE  | upper-bound flag |
//! | 55 bits |       8 bits        |      1 bit       |
//! ```
//!
//! A bucket is chosen by `key % capacity` and a new entry always overwrites it.
use vstd::prelude::*;

use crate::{MAX_SCORE, MIN_SCORE};

verus! {

/// Keys are stored in the upper 55 bits of a word.
pub const KEY_LIMIT: u64 = 1u64 << 55u64;

/// Key held by an entry.
pub open spec fn entry_key(e: u64) -> u64 {
    e >> 9u64
}

/// Score held by an entry.
pub open spec fn entry_value(e: u64) -> int {
    ((e >> 1u64) & 0xff) as int + MIN_SCORE
}

/// Whether an entry holds an upper bound (else a lower bound).
pub open spec fn entry_upper(e: u64) -> bool {
    e & 1 == 1
}

/// Bucket of `key` in a table of `len` buckets.
pub open spec fn bucket(key: u64, len: int) -> int {
    (key as usize) as int % len
}

/// What a lookup of `key` finds: the stored bound when the bucket holds `key`, else
/// the bound `MAX_SCORE` as an upper bound, which constrains nothing.
pub open spec fn lookup(entries: Seq<u64>, key: u64) -> (int, bool) {
    let e = entries[bucket(key, entries.len() as int)];
    if entry_key(e) == key {
        (entry_value(e), entry_upper(e))
    } else {
        (MAX_SCORE as int, true)
    }
}

/// Transposition table of fixed capacity.
pub struct TransTable {
    positions: Vec<u64>,
}

impl View for TransTable {
    type V = Seq<u64>;

    closed spec fn view(&self) -> Seq<u64> {
        self.positions@
    }
}

/// Every entry holds a score within `MIN_SCORE..=MAX_SCORE`.
pub open spec fn scores_in_range(entries: Seq<u64>) -> bool {
    forall|i: int| 0 <= i < entries.len() ==> MIN_SCORE <= #[trigger] entry_value(entries[i]) <= MAX_SCORE
}

impl TransTable {
    /// At least one bucket, and every stored score in range.
    pub open spec fn wf(&self) -> bool {
        &&& self@.len() > 0
        &&& scores_in_range(self@)
    }

    /// A table of `capacity` empty buckets.
    pub fn new(capacity: usize) -> (r: TransTable)
        requires
            capacity > 0,
        ensures
            r.wf(),
            r@ == Seq::new(capacity as nat, |i: int| 0u64),
    {
        let mut positions: Vec<u64> = Vec::with_capacity(capacity);
        let mut i: usize = 0;
        while i < capacity
            invariant
                i <= capacity,
                positions@ == Seq::new(i as nat, |j: int| 0u64),
            decreases capacity - i,
        {
            positions.push(0);
            i = i + 1;
            assert(positions@ =~= Seq::new(i as nat, |j: int| 0u64));
        }
        assert((0u64 >> 1u64) & 0xff == 0) by (bit_vector);
        TransTable { positions }
    }

    /// Bound stored for `key` and whether it is an upper bound; `(MAX_SCORE, true)` when
    /// the bucket holds another key.
    pub fn get(&self, key: u64) -> (r: (i32, bool))
        requires
            self.wf(),
            key < KEY_LIMIT,
        ensures
            (r.0 as int, r.1) == lookup(self@, key),
            MIN_SCORE <= r.0 <= MAX_SCORE,
    {
        let e = self.positions[(key as usize) % self.positions.len()];
        if e >> 9u64 != key {
            return (MAX_SCORE, true);
        }
        proof {
            assert(entry_value(self@[bucket(key, self@.len() as int)]) <= MAX_SCORE);
            assert((e >> 1u64) & 0xff < 256) by (bit_vector);
        }
        ((((e >> 1u64) & 0xff) as i32) + MIN_SCORE, e & 1 == 1)
    }

    /// Stores `value` for `key`, as an upper bound when `is_upper`, overwriting the bucket.
    pub fn put(&mut self, key: u64, value: i32, is_upper: bool)
        requires
            old(self).wf(),
            key < KEY_LIMIT,
            MIN_SCORE <= value <= MAX_SCORE,
        ensures
            final(self).wf(),
            ({
                let i = bucket(key, old(self)@.len() as int);
                let e = final(self)@[i];
                &&& final(self)@ == old(self)@.update(i, e)
                &&& entry_key(e) == key
                &&& entry_value(e) == value
                &&& entry_upper(e) == is_upper
            }),
    {
        let idx = (key as usize) % self.positions.len();
        let v: u64 = (value - MIN_SCORE) as u64;
        let flag: u64 = if is_upper { 1 } else { 0 };
        let e: u64 = (key << 9u64) | (v << 1u64) | flag;
        proof {
            assert(key < 1u64 << 55u64 && v < 256 && flag < 2 ==> ((key << 9u64) | (v << 1u64)
                | flag) >> 9u64 == key) by (bit_vector);
            assert(v < 256 && flag < 2 ==> (((key << 9u64) | (v << 1u64) | flag) >> 1u64) & 0xff
                == v) by (bit_vector);
            assert(flag < 2 ==> (((key << 9u64) | (v << 1u64) | flag) & 1 == 1 <==> flag == 1))
                by (bit_vector);
        }
        self.positions.set(idx, e);
        proof {
            assert forall|i: int| 0 <= i < self@.len() implies MIN_SCORE <= #[trigger] entry_value(
                self@[i],
            ) <= MAX_SCORE by {
                if i != idx {
                    assert(self@[i] == old(self)@[i]);
                }
            }
        }
    }

    /// Empties every bucket.
    pub fn clear(&mut self)
        requires
            old(self).wf(),
        ensures
            final(self).wf(),
            final(self)@ == Seq::new(old(self)@.len(), |i: int| 0u64),
    {
        let mut i: usize = 0;
        while i < self.positions.len()
            invariant
                i <= self.positions@.len(),
                self.positions@.len() == old(self)@.len(),
                forall|j: int| 0 <= j < i ==> self.positions@[j] == 0,
            decreases self.positions@.len() - i,
        {
            self.positions.set(i, 0);
            i = i + 1;
        }
        assert(self.positions@ =~= Seq::new(old(self)@.len(), |i: int| 0u64));
        assert((0u64 >> 1u64) & 0xff == 0) by (bit_vector);
    }
}

/// An entry written by `put` for a key in range is read back by `get`: the same
/// value and the same bound flag.
pub proof fn lemma_put_get(entries: Seq<u64>, key: u64, value: int, is_upper: bool, e: u64)
    requires
        entries.len() > 0,
        key < KEY_LIMIT,
        MIN_SCORE <= value <= MAX_SCORE,
        entry_key(e) == key,
        entry_value(e) == value,
        entry_upper(e) == is_upper,
    ensures
        lookup(entries.update(bucket(key, entries.len() as int), e), key) == (value, is_upper),
{
}

} // verus!
