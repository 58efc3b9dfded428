//! Facts about single bits of a 64-bit word and about counting them.
use vstd::prelude::*;

verus! {

/// Bit `b` (0 = least significant) of `w` is set.
pub open spec fn bit(w: u64, b: int) -> bool {
    (w >> (b as u64)) & 1u64 == 1u64
}

/// Number of set bits of `w` among positions `0..n`.
pub open spec fn word_bits(w: u64, n: int) -> nat
    decreases n,
{
    if n <= 0 {
        0
    } else {
        word_bits(w, n - 1) + if bit(w, n - 1) { 1nat } else { 0nat }
    }
}

/// Number of set bits of `w` (its population count).
pub open spec fn popcount_word(w: u64) -> nat {
    word_bits(w, 64)
}

/// Sum of the population counts of the words of `s`.
pub open spec fn words_sum(s: Seq<u64>) -> nat
    decreases s.len(),
{
    if s.len() == 0 {
        0
    } else {
        words_sum(s.drop_last()) + popcount_word(s.last())
    }
}

/// Number of `true` entries of `s`.
pub open spec fn count_true(s: Seq<bool>) -> nat
    decreases s.len(),
{
    if s.len() == 0 {
        0
    } else {
        count_true(s.drop_last()) + if s.last() { 1nat } else { 0nat }
    }
}

/// Number of ones of a word, counted bit by bit.
pub fn count_ones(w: u64) -> (r: u32)
    ensures
        r as nat == popcount_word(w),
{
    let mut c: u32 = 0;
    let mut b: u64 = 0;
    while b < 64
        invariant
            b <= 64,
            c <= b,
            c as nat == word_bits(w, b as int),
        decreases 64 - b,
    {
        if (w >> b) & 1u64 == 1u64 {
            c += 1;
        }
        b += 1;
    }
    c
}

proof fn bv_or(w: u64, v: u64, b: u64)
    by (bit_vector)
    requires
        b < 64,
    ensures
        (((w | v) >> b) & 1u64 == 1u64) == (((w >> b) & 1u64 == 1u64) || ((v >> b) & 1u64 == 1u64)),
{
}

proof fn bv_and(w: u64, v: u64, b: u64)
    by (bit_vector)
    requires
        b < 64,
    ensures
        (((w & v) >> b) & 1u64 == 1u64) == (((w >> b) & 1u64 == 1u64) && ((v >> b) & 1u64 == 1u64)),
{
}

proof fn bv_not(w: u64, b: u64)
    by (bit_vector)
    requires
        b < 64,
    ensures
        (((!w) >> b) & 1u64 == 1u64) == !((w >> b) & 1u64 == 1u64),
{
}

proof fn bv_single(s: u64, b: u64)
    by (bit_vector)
    requires
        s < 64,
        b < 64,
    ensures
        (((1u64 << s) >> b) & 1u64 == 1u64) == (s == b),
{
}

proof fn bv_shl(w: u64, s: u64, b: u64)
    by (bit_vector)
    requires
        s < 64,
        b < 64,
    ensures
        (((w << s) >> b) & 1u64 == 1u64) == (b >= s && ((w >> (b - s) as u64) & 1u64 == 1u64)),
{
}

proof fn bv_shr(w: u64, s: u64, b: u64)
    by (bit_vector)
    requires
        s < 64,
        b < 64,
    ensures
        (((w >> s) >> b) & 1u64 == 1u64) == (b + s < 64 && ((w >> (b + s) as u64) & 1u64 == 1u64)),
{
}

proof fn bv_low_mask(r: u64, b: u64)
    by (bit_vector)
    requires
        r < 64,
        b < 64,
    ensures
        ((((1u64 << r) - 1u64) as u64 >> b) & 1u64 == 1u64) == (b < r),
{
}

proof fn bv_full(b: u64)
    by (bit_vector)
    requires
        b < 64,
    ensures
        ((0xFFFF_FFFF_FFFF_FFFFu64 >> b) & 1u64 == 1u64),
        !((0u64 >> b) & 1u64 == 1u64),
{
}

proof fn bv_clear_lowest(w: u64, t: u64, b: u64)
    by (bit_vector)
    requires
        t < 64,
        b < 64,
        (w >> t) & 1u64 == 1u64,
        w << ((64u64 - t) as u64) == 0u64,
    ensures
        (((w & ((w - 1u64) as u64)) >> b) & 1u64 == 1u64) == (((w >> b) & 1u64 == 1u64) && b != t),
{
}

proof fn bv_test(w: u64, b: u64)
    by (bit_vector)
    requires
        b < 64,
    ensures
        ((w & (1u64 << b)) != 0u64) == ((w >> b) & 1u64 == 1u64),
{
}

/// Masking with `1 << b` tests bit `b`.
pub proof fn lemma_bit_test(w: u64, b: int)
    requires
        0 <= b < 64,
    ensures
        ((w & (1u64 << (b as u64))) != 0u64) == bit(w, b),
{
    bv_test(w, b as u64);
}

/// `1 << s` is positive for shifts below 64.
pub proof fn lemma_shift_pos(s: int)
    requires
        0 <= s < 64,
    ensures
        (1u64 << (s as u64)) >= 1u64,
{
    let t = s as u64;
    assert((1u64 << t) >= 1u64) by (bit_vector)
        requires
            t < 64,
    ;
}

/// Bit `b` of `w | v` is set exactly when it is set in `w` or in `v`.
pub proof fn lemma_bit_or(w: u64, v: u64, b: int)
    requires
        0 <= b < 64,
    ensures
        bit(w | v, b) == (bit(w, b) || bit(v, b)),
{
    bv_or(w, v, b as u64);
}

/// Bit `b` of `w & v` is set exactly when it is set in both.
pub proof fn lemma_bit_and(w: u64, v: u64, b: int)
    requires
        0 <= b < 64,
    ensures
        bit(w & v, b) == (bit(w, b) && bit(v, b)),
{
    bv_and(w, v, b as u64);
}

/// Bit `b` of `!w` is set exactly when it is clear in `w`.
pub proof fn lemma_bit_not(w: u64, b: int)
    requires
        0 <= b < 64,
    ensures
        bit(!w, b) == !bit(w, b),
{
    bv_not(w, b as u64);
}

/// `1 << s` has exactly bit `s` set.
pub proof fn lemma_bit_single(s: int, b: int)
    requires
        0 <= s < 64,
        0 <= b < 64,
    ensures
        bit(1u64 << (s as u64), b) == (s == b),
{
    bv_single(s as u64, b as u64);
}

/// Bit `b` of `w << s` is bit `b - s` of `w` (clear below `s`).
pub proof fn lemma_bit_shl(w: u64, s: int, b: int)
    requires
        0 <= s < 64,
        0 <= b < 64,
    ensures
        bit(w << (s as u64), b) == (b >= s && bit(w, b - s)),
{
    bv_shl(w, s as u64, b as u64);
}

/// Bit `b` of `w >> s` is bit `b + s` of `w` (clear when that is past 63).
pub proof fn lemma_bit_shr(w: u64, s: int, b: int)
    requires
        0 <= s < 64,
        0 <= b < 64,
    ensures
        bit(w >> (s as u64), b) == (b + s < 64 && bit(w, b + s)),
{
    bv_shr(w, s as u64, b as u64);
}

/// `(1 << r) - 1` has exactly the bits below `r` set.
pub proof fn lemma_bit_low_mask(r: int, b: int)
    requires
        0 <= r < 64,
        0 <= b < 64,
    ensures
        bit(((1u64 << (r as u64)) - 1u64) as u64, b) == (b < r),
{
    bv_low_mask(r as u64, b as u64);
}

/// Every bit of `u64::MAX` is set and no bit of `0` is.
pub proof fn lemma_bit_full_empty(b: int)
    requires
        0 <= b < 64,
    ensures
        bit(0xFFFF_FFFF_FFFF_FFFFu64, b),
        !bit(0u64, b),
{
    bv_full(b as u64);
}

/// `w & (w - 1)` clears exactly the lowest set bit of a non-zero `w`.
pub proof fn lemma_clear_lowest(w: u64, b: int)
    requires
        w != 0,
        0 <= b < 64,
    ensures
        0 <= (w.trailing_zeros() as int) < 64,
        bit(w, w.trailing_zeros() as int),
        forall|c: int| 0 <= c < w.trailing_zeros() ==> !#[trigger] bit(w, c),
        bit(w & ((w - 1) as u64), b) == (bit(w, b) && b != w.trailing_zeros() as int),
{
    broadcast use vstd::std_specs::bits::axiom_u64_trailing_zeros;
    let t = w.trailing_zeros() as u64;
    assert(forall|j: u64| 0 <= j < t ==> #[trigger] (w >> j) & 1u64 == 0u64);
    assert forall|c: int| 0 <= c < w.trailing_zeros() implies !#[trigger] bit(w, c) by {
        assert((w >> (c as u64)) & 1u64 == 0u64);
    }
    bv_clear_lowest(w, t, b as u64);
}

/// Counting bits of a word one position at a time: extending the range by one
/// position adds that position's bit.
pub proof fn lemma_word_bits_step(w: u64, n: int)
    requires
        0 < n,
    ensures
        word_bits(w, n) == word_bits(w, n - 1) + if bit(w, n - 1) { 1nat } else { 0nat },
{
}

/// A word with no set bit at positions `n..64` has all its bits counted by the first `n`.
pub proof fn lemma_word_bits_upper_clear(w: u64, n: int)
    requires
        0 <= n <= 64,
        forall|b: int| n <= b < 64 ==> !#[trigger] bit(w, b),
    ensures
        word_bits(w, n) == popcount_word(w),
    decreases 64 - n,
{
    if n < 64 {
        lemma_word_bits_upper_clear(w, n + 1);
    }
}

/// Sum of word population counts distributes over concatenation.
pub proof fn lemma_words_sum_concat(a: Seq<u64>, b: Seq<u64>)
    ensures
        words_sum(a + b) == words_sum(a) + words_sum(b),
    decreases b.len(),
{
    if b.len() == 0 {
        assert(a + b =~= a);
    } else {
        lemma_words_sum_concat(a, b.drop_last());
        assert((a + b).drop_last() =~= a + b.drop_last());
    }
}

/// `count_true` distributes over concatenation.
pub proof fn lemma_count_true_concat(a: Seq<bool>, b: Seq<bool>)
    ensures
        count_true(a + b) == count_true(a) + count_true(b),
    decreases b.len(),
{
    if b.len() == 0 {
        assert(a + b =~= a);
    } else {
        lemma_count_true_concat(a, b.drop_last());
        assert((a + b).drop_last() =~= a + b.drop_last());
    }
}

} // verus!
