use vstd::prelude::*;

verus! {

/// Whether bit `i` of `x` is set; positions outside `0..64` are never set.
pub open spec fn has_bit(x: u64, i: int) -> bool {
    0 <= i < 64 && (x >> (i as u64)) & 1 == 1
}

pub broadcast proof fn lemma_bit_and(x: u64, y: u64, i: int)
    ensures
        #[trigger] has_bit(x & y, i) == (has_bit(x, i) && has_bit(y, i)),
{
    if 0 <= i < 64 {
        let k = i as u64;
        assert(((x & y) >> k) & 1 == 1 <==> ((x >> k) & 1 == 1 && (y >> k) & 1 == 1))
            by (bit_vector);
    }
}

pub broadcast proof fn lemma_bit_or(x: u64, y: u64, i: int)
    ensures
        #[trigger] has_bit(x | y, i) == (has_bit(x, i) || has_bit(y, i)),
{
    if 0 <= i < 64 {
        let k = i as u64;
        assert(((x | y) >> k) & 1 == 1 <==> ((x >> k) & 1 == 1 || (y >> k) & 1 == 1))
            by (bit_vector);
    }
}

pub broadcast proof fn lemma_bit_xor(x: u64, y: u64, i: int)
    ensures
        #[trigger] has_bit(x ^ y, i) == (0 <= i < 64 && has_bit(x, i) != has_bit(y, i)),
{
    if 0 <= i < 64 {
        let k = i as u64;
        assert(((x ^ y) >> k) & 1 == 1 <==> ((x >> k) & 1 == 1) != ((y >> k) & 1 == 1))
            by (bit_vector);
    }
}

pub broadcast proof fn lemma_bit_not(x: u64, i: int)
    ensures
        #[trigger] has_bit(!x, i) == (0 <= i < 64 && !has_bit(x, i)),
{
    if 0 <= i < 64 {
        let k = i as u64;
        assert(k < 64 ==> (((!x) >> k) & 1 == 1 <==> !((x >> k) & 1 == 1))) by (bit_vector);
    }
}

pub broadcast proof fn lemma_bit_shl(x: u64, s: u64, i: int)
    requires
        s < 64,
    ensures
        #[trigger] has_bit(x << s, i) == (0 <= i < 64 && i >= s && has_bit(x, i - s)),
{
    if 0 <= i < 64 {
        let k = i as u64;
        if k >= s {
            let j = (k - s) as u64;
            assert(k >= s && j == k - s && k < 64 && s < 64 ==> (((x << s) >> k) & 1 == 1 <==> (x
                >> j) & 1 == 1)) by (bit_vector);
        } else {
            assert(k < s && s < 64 ==> ((x << s) >> k) & 1 == 0) by (bit_vector);
        }
    }
}

pub broadcast proof fn lemma_bit_shr(x: u64, s: u64, i: int)
    requires
        s < 64,
    ensures
        #[trigger] has_bit(x >> s, i) == (0 <= i < 64 && has_bit(x, i + s)),
{
    if 0 <= i < 64 {
        let k = i as u64;
        if k + s < 64 {
            let j = (k + s) as u64;
            assert(j == k + s && j < 64 ==> (((x >> s) >> k) & 1 == 1 <==> (x >> j) & 1 == 1))
                by (bit_vector);
        } else {
            assert(k + s >= 64 && k < 64 && s < 64 ==> ((x >> s) >> k) & 1 == 0) by (bit_vector);
        }
    }
}

pub broadcast proof fn lemma_bit_single(s: u64, i: int)
    requires
        s < 64,
    ensures
        #[trigger] has_bit(1u64 << s, i) == (i == s),
{
    if 0 <= i < 64 {
        let k = i as u64;
        assert(s < 64 && k < 64 ==> (((1u64 << s) >> k) & 1 == 1 <==> k == s)) by (bit_vector);
    }
}

pub broadcast group group_bits {
    lemma_bit_and,
    lemma_bit_or,
    lemma_bit_xor,
    lemma_bit_not,
    lemma_bit_shl,
    lemma_bit_shr,
    lemma_bit_single,
}

/// A word is non-zero exactly when one of its bits is set.
pub proof fn lemma_nonzero_iff_bit(x: u64)
    ensures
        x != 0 <==> exists|i: int| has_bit(x, i),
{
    if x != 0 {
        assert(x >> 0u64 == x) by (bit_vector);
        let i = lowest_bit(x, 0);
        assert(has_bit(x, i));
    } else {
        assert forall|i: int| !has_bit(x, i) by {
            if 0 <= i < 64 {
                let k = i as u64;
                assert(x == 0 ==> (x >> k) & 1 == 0) by (bit_vector);
            }
        }
    }
}

proof fn lowest_bit(x: u64, k: u64) -> (i: int)
    requires
        k < 64,
        x >> k != 0,
    ensures
        has_bit(x, i),
    decreases 64 - k,
{
    if (x >> k) & 1 == 1 {
        k as int
    } else {
        let j = (k + 1) as u64;
        assert(k < 64 && j == k + 1 && x >> k != 0 && (x >> k) & 1 != 1 ==> k < 63 && x >> j != 0)
            by (bit_vector);
        lowest_bit(x, j)
    }
}

/// Words with the same bits are equal.
pub proof fn lemma_bits_ext(x: u64, y: u64)
    requires
        forall|i: int| 0 <= i < 64 ==> has_bit(x, i) == has_bit(y, i),
    ensures
        x == y,
{
    lemma_nonzero_iff_bit(x ^ y);
    broadcast use lemma_bit_xor;
    assert((x ^ y) == 0 ==> x == y) by (bit_vector);
}

/// Number of set bits among positions `0..n`.
pub open spec fn bits_below(x: u64, n: nat) -> nat
    decreases n,
{
    if n == 0 {
        0
    } else {
        bits_below(x, (n - 1) as nat) + if has_bit(x, n - 1) {
            1nat
        } else {
            0nat
        }
    }
}

/// Number of set bits of a word.
pub open spec fn popcount(x: u64) -> nat {
    bits_below(x, 64)
}

/// Counts the set bits of `x`.
pub fn count_ones(x: u64) -> (r: u32)
    ensures
        r == popcount(x),
{
    let mut c: u32 = 0;
    let mut i: u64 = 0;
    while i < 64
        invariant
            i <= 64,
            c == bits_below(x, i as nat),
            c <= i,
        decreases 64 - i,
    {
        if (x >> i) & 1 == 1 {
            c = c + 1;
        }
        i = i + 1;
    }
    c
}

} // verus!
