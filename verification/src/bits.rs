//! Single bits of machine words, and the two functions of the standard
//! library on them that the grids use: counting the ones and reversing the
//! order of the bits.

use vstd::prelude::*;

verus! {

/// Whether bit `k` of `v` is set.
pub open spec fn bit16(v: u16, k: u16) -> bool {
    (v >> k) & 1 == 1
}

/// Whether bit `k` of `v` is set.
pub open spec fn bit32(v: u32, k: u32) -> bool {
    (v >> k) & 1 == 1
}

/// Whether bit `k` of `v` is set.
pub open spec fn bit64(v: u64, k: u64) -> bool {
    (v >> k) & 1 == 1
}

/// The number of bits set among the lowest `n` bits of `v`.
pub open spec fn ones16(v: u16, n: nat) -> nat
    decreases n,
{
    if n == 0 {
        0
    } else {
        ones16(v, (n - 1) as nat) + (if bit16(v, (n - 1) as u16) {
            1nat
        } else {
            0nat
        })
    }
}

/// The number of bits set among the lowest `n` bits of `v`.
pub open spec fn ones32(v: u32, n: nat) -> nat
    decreases n,
{
    if n == 0 {
        0
    } else {
        ones32(v, (n - 1) as nat) + (if bit32(v, (n - 1) as u32) {
            1nat
        } else {
            0nat
        })
    }
}

/// `u16::count_ones` of the standard library: the number of ones in the
/// binary representation of the argument.
pub assume_specification[ u16::count_ones ](v: u16) -> (n: u32)
    ensures
        n == ones16(v, 16),
;

/// `u32::count_ones` of the standard library: the number of ones in the
/// binary representation of the argument.
pub assume_specification[ u32::count_ones ](v: u32) -> (n: u32)
    ensures
        n == ones32(v, 32),
;

/// `u16::reverse_bits` of the standard library: the least significant bit
/// becomes the most significant one, the second least significant bit the
/// second most significant one, and so on.
pub assume_specification[ u16::reverse_bits ](v: u16) -> (r: u16)
    ensures
        forall|k: u16| k < 16 ==> #[trigger] bit16(r, k) == bit16(v, (15 - k) as u16),
;

/// `u32::reverse_bits` of the standard library: the least significant bit
/// becomes the most significant one, the second least significant bit the
/// second most significant one, and so on.
pub assume_specification[ u32::reverse_bits ](v: u32) -> (r: u32)
    ensures
        forall|k: u32| k < 32 ==> #[trigger] bit32(r, k) == bit32(v, (31 - k) as u32),
;

/// Two words with the same bits are the same word.
pub proof fn lemma_bits_equal16(a: u16, b: u16)
    requires
        forall|k: u16| k < 16 ==> #[trigger] bit16(a, k) == bit16(b, k),
    ensures
        a == b,
{
    assert(bit16(a, 0) == bit16(b, 0));
    assert(bit16(a, 1) == bit16(b, 1));
    assert(bit16(a, 2) == bit16(b, 2));
    assert(bit16(a, 3) == bit16(b, 3));
    assert(bit16(a, 4) == bit16(b, 4));
    assert(bit16(a, 5) == bit16(b, 5));
    assert(bit16(a, 6) == bit16(b, 6));
    assert(bit16(a, 7) == bit16(b, 7));
    assert(bit16(a, 8) == bit16(b, 8));
    assert(bit16(a, 9) == bit16(b, 9));
    assert(bit16(a, 10) == bit16(b, 10));
    assert(bit16(a, 11) == bit16(b, 11));
    assert(bit16(a, 12) == bit16(b, 12));
    assert(bit16(a, 13) == bit16(b, 13));
    assert(bit16(a, 14) == bit16(b, 14));
    assert(bit16(a, 15) == bit16(b, 15));
    assert(a == b) by (bit_vector)
        requires
            bit16(a, 0) == bit16(b, 0),
            bit16(a, 1) == bit16(b, 1),
            bit16(a, 2) == bit16(b, 2),
            bit16(a, 3) == bit16(b, 3),
            bit16(a, 4) == bit16(b, 4),
            bit16(a, 5) == bit16(b, 5),
            bit16(a, 6) == bit16(b, 6),
            bit16(a, 7) == bit16(b, 7),
            bit16(a, 8) == bit16(b, 8),
            bit16(a, 9) == bit16(b, 9),
            bit16(a, 10) == bit16(b, 10),
            bit16(a, 11) == bit16(b, 11),
            bit16(a, 12) == bit16(b, 12),
            bit16(a, 13) == bit16(b, 13),
            bit16(a, 14) == bit16(b, 14),
            bit16(a, 15) == bit16(b, 15),
    ;
}

/// The bits of the union of two words.
pub proof fn lemma_or32(v: u32, w: u32, r: u32)
    by (bit_vector)
    requires
        r == v | w,
    ensures
        forall|k: u32| k < 32 ==> #[trigger] bit32(r, k) == (bit32(v, k) || bit32(w, k)),
{
}

/// The bits of a word without those of another.
pub proof fn lemma_and_not32(v: u32, w: u32, r: u32)
    by (bit_vector)
    requires
        r == v & !w,
    ensures
        forall|k: u32| k < 32 ==> #[trigger] bit32(r, k) == (bit32(v, k) && !bit32(w, k)),
{
}

/// The word with the single bit `s`, and the word with every bit but `s`.
pub proof fn lemma_single32(s: u32, one: u32, rest: u32)
    by (bit_vector)
    requires
        s < 32,
        one == 1u32 << s,
        rest == 0xFFFF_FFFFu32 - (1u32 << s),
    ensures
        forall|k: u32| k < 32 ==> #[trigger] bit32(one, k) == (k == s),
        forall|k: u32| k < 32 ==> #[trigger] bit32(rest, k) == (k != s),
        rest == !one,
{
}

/// The bits of a word moved up by `s` places.
pub proof fn lemma_shl32(v: u32, s: u32, r: u32)
    by (bit_vector)
    requires
        s < 32,
        r == v << s,
    ensures
        forall|k: u32| k < 32 ==> #[trigger] bit32(r, k) == (k >= s && bit32(v, (k - s) as u32)),
{
}

/// The bits of a word moved down by `s` places.
pub proof fn lemma_shr32(v: u32, s: u32, r: u32)
    by (bit_vector)
    requires
        s < 32,
        r == v >> s,
    ensures
        forall|k: u32| k < 32 ==> #[trigger] bit32(r, k) == (k + s < 32 && bit32(v, (k + s) as u32)),
{
}

/// The bits of the word that keeps the lowest `n` bits of another.
pub proof fn lemma_low32(v: u32, n: u32, r: u32)
    by (bit_vector)
    requires
        n < 32,
        r == v & ((1u32 << n) - 1) as u32,
    ensures
        forall|k: u32| k < 32 ==> #[trigger] bit32(r, k) == (k < n && bit32(v, k)),
        (1u32 << n) >= 1,
{
}

/// No bit of zero is set.
pub proof fn lemma_zero32()
    by (bit_vector)
    ensures
        forall|k: u32| k < 32 ==> !#[trigger] bit32(0, k),
{
}

/// Two words with the same bits are the same word.
pub proof fn lemma_bits_equal32(a: u32, b: u32)
    requires
        forall|k: u32| k < 32 ==> #[trigger] bit32(a, k) == bit32(b, k),
    ensures
        a == b,
{
    let lo_a = (a & 0xFFFF) as u16;
    let hi_a = (a >> 16) as u16;
    let lo_b = (b & 0xFFFF) as u16;
    let hi_b = (b >> 16) as u16;
    assert(forall|k: u16|
        #![trigger bit16(lo_a, k)]
        #![trigger bit16(hi_a, k)]
        k < 16 ==> bit16(lo_a, k) == bit32(a, k as u32) && bit16(hi_a, k) == bit32(
            a,
            (k + 16) as u32,
        )) by (bit_vector)
        requires
            lo_a == (a & 0xFFFF) as u16,
            hi_a == (a >> 16) as u16,
    ;
    assert(forall|k: u16|
        #![trigger bit16(lo_b, k)]
        #![trigger bit16(hi_b, k)]
        k < 16 ==> bit16(lo_b, k) == bit32(b, k as u32) && bit16(hi_b, k) == bit32(
            b,
            (k + 16) as u32,
        )) by (bit_vector)
        requires
            lo_b == (b & 0xFFFF) as u16,
            hi_b == (b >> 16) as u16,
    ;
    assert forall|k: u16| k < 16 implies #[trigger] bit16(lo_a, k) == bit16(lo_b, k) by {
        assert(bit32(a, k as u32) == bit32(b, k as u32));
    }
    assert forall|k: u16| k < 16 implies #[trigger] bit16(hi_a, k) == bit16(hi_b, k) by {
        assert(bit32(a, (k + 16) as u32) == bit32(b, (k + 16) as u32));
    }
    lemma_bits_equal16(lo_a, lo_b);
    lemma_bits_equal16(hi_a, hi_b);
    assert(a == b) by (bit_vector)
        requires
            (a & 0xFFFF) as u16 == (b & 0xFFFF) as u16,
            (a >> 16) as u16 == (b >> 16) as u16,
    ;
}

} // verus!
