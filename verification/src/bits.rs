//! Bit-level model of the occupancy words.
//!
//! A 32-bit word stores one row of 32 voxels in most-significant-bit-first
//! order: column `c` of the row lives in bit `31 - c`. [`col_bit`] is the
//! reading of one column, and the popcount functions below count the set
//! columns of a word and of a sequence of words.

use vstd::prelude::*;

verus! {

/// Whether column `c` (bit `31 - c`, most-significant-bit-first) of `w` is set.
pub open spec fn col_bit(w: u32, c: u32) -> bool {
    w & (0x8000_0000u32 >> c) != 0
}

/// Executable test of [`col_bit`].
pub fn read_bit(w: u32, c: u32) -> (r: bool)
    requires
        c < 32,
    ensures
        r == col_bit(w, c),
{
    w & (0x8000_0000u32 >> c) != 0
}

/// A zero word has no column set.
pub proof fn lemma_bit_zero()
    by (bit_vector)
    ensures
        forall|c: u32| c < 32 ==> !(#[trigger] col_bit(0u32, c)),
{
}

/// Or-ing two words ors their columns.
pub proof fn lemma_bit_or()
    by (bit_vector)
    ensures
        forall|w1: u32, w2: u32, c: u32|
            c < 32 ==> (#[trigger] col_bit(w1 | w2, c) <==> (col_bit(w1, c) || col_bit(w2, c))),
{
}

/// The single-column mask `0x8000_0000 >> x` has exactly column `x` set.
pub proof fn lemma_bit_mask()
    by (bit_vector)
    ensures
        forall|x: u32, c: u32|
            x < 32 && c < 32 ==> (#[trigger] col_bit(0x8000_0000u32 >> x, c) <==> c == x),
{
}

/// And-ing with the complement of the mask of column `x` clears exactly that column.
pub proof fn lemma_bit_clear()
    by (bit_vector)
    ensures
        forall|w: u32, x: u32, c: u32|
            x < 32 && c < 32 ==> (#[trigger] col_bit(w & (u32::MAX ^ (0x8000_0000u32 >> x)), c)
                <==> (col_bit(w, c) && c != x)),
{
}

/// Setting an already-set column, or clearing an already-clear one, leaves the word as it was.
pub proof fn lemma_bit_noop()
    by (bit_vector)
    ensures
        forall|w: u32, x: u32|
            x < 32 && col_bit(w, x) ==> #[trigger] (w | (0x8000_0000u32 >> x)) == w,
        forall|w: u32, x: u32|
            x < 32 && !col_bit(w, x) ==> #[trigger] (w & (u32::MAX ^ (0x8000_0000u32 >> x))) == w,
{
}

/// `((w << n) & 0x8000_0000) >> z` extracts column `n` of `w` into column `z`
/// of an otherwise-zero word.
pub proof fn lemma_bit_extract()
    by (bit_vector)
    ensures
        forall|w: u32, n: u32, z: u32, c: u32|
            n < 32 && z < 32 && c < 32 ==> (#[trigger] col_bit(((w << n) & 0x8000_0000u32) >> z, c)
                <==> (c == z && col_bit(w, n))),
{
}

/// The number of set columns of `w` among columns `[0, k)`.
pub open spec fn popcnt_upto(w: u32, k: nat) -> nat
    decreases k,
{
    if k == 0 {
        0
    } else {
        popcnt_upto(w, (k - 1) as nat) + if col_bit(w, (k - 1) as u32) {
            1nat
        } else {
            0nat
        }
    }
}

/// The number of set bits of `w`.
pub open spec fn popcnt(w: u32) -> nat {
    popcnt_upto(w, 32)
}

/// At most `k` of the first `k` columns are set.
pub proof fn lemma_popcnt_upto_le(w: u32, k: nat)
    ensures
        popcnt_upto(w, k) <= k,
    decreases k,
{
    if k > 0 {
        lemma_popcnt_upto_le(w, (k - 1) as nat);
    }
}

/// The zero word has popcount zero.
pub proof fn lemma_popcnt_zero(k: nat)
    requires
        k <= 32,
    ensures
        popcnt_upto(0u32, k) == 0,
    decreases k,
{
    lemma_bit_zero();
    if k > 0 {
        lemma_popcnt_zero((k - 1) as nat);
    }
}

/// Flipping exactly column `x` from clear to set raises the popcount up to `k`
/// by one if `x < k`, and leaves it unchanged otherwise.
pub proof fn lemma_popcnt_flip(w1: u32, w2: u32, x: u32, k: nat)
    requires
        k <= 32,
        x < 32,
        forall|c: u32| c < 32 && c != x ==> #[trigger] col_bit(w1, c) == col_bit(w2, c),
        !col_bit(w1, x),
        col_bit(w2, x),
    ensures
        x < k ==> popcnt_upto(w2, k) == popcnt_upto(w1, k) + 1,
        x >= k ==> popcnt_upto(w2, k) == popcnt_upto(w1, k),
    decreases k,
{
    if k > 0 {
        lemma_popcnt_flip(w1, w2, x, (k - 1) as nat);
    }
}

/// Relies on `u32::count_ones`: it returns the number of set bits of the word,
/// which is [`popcnt`] (each set bit is a set column and vice versa).
pub assume_specification[ u32::count_ones ](w: u32) -> (r: u32)
    ensures
        r == popcnt(w),
;

/// The total popcount of the first `k` words of `s`.
pub open spec fn sum_popcnt(s: Seq<u32>, k: int) -> nat
    decreases k,
{
    if k <= 0 {
        0
    } else {
        sum_popcnt(s, k - 1) + popcnt(s[k - 1])
    }
}

/// A sequence of zero words has total popcount zero.
pub proof fn lemma_sum_popcnt_zero(s: Seq<u32>, k: int)
    requires
        k <= s.len(),
        forall|i: int| 0 <= i < k ==> s[i] == 0u32,
    ensures
        sum_popcnt(s, k) == 0,
    decreases k,
{
    if k > 0 {
        lemma_popcnt_zero(32);
        lemma_sum_popcnt_zero(s, k - 1);
    }
}

/// Replacing the word at index `i` changes the total popcount by the
/// difference of the two words' popcounts.
pub proof fn lemma_sum_popcnt_update(s: Seq<u32>, i: int, w: u32, k: int)
    requires
        0 <= i < s.len(),
        k <= s.len(),
    ensures
        i < k ==> sum_popcnt(s.update(i, w), k) + popcnt(s[i]) == sum_popcnt(s, k) + popcnt(w),
        i >= k ==> sum_popcnt(s.update(i, w), k) == sum_popcnt(s, k),
    decreases k,
{
    if k > 0 {
        lemma_sum_popcnt_update(s, i, w, k - 1);
    }
}

} // verus!
