//! Facts about single bits of a 64-bit word.

use vstd::prelude::*;

verus! {

/// Whether bit `j` (counted from the least significant bit) of `w` is set.
pub open spec fn bit_of(w: u64, j: u64) -> bool {
    (w >> j) & 1u64 == 1u64
}

pub proof fn lemma_bit_zero(j: u64)
    ensures
        !bit_of(0u64, j),
{
    assert((0u64 >> j) & 1u64 != 1u64) by (bit_vector);
}

pub proof fn lemma_bit_single(b: u64, j: u64)
    requires
        b < 64,
        j < 64,
    ensures
        bit_of(1u64 << b, j) == (j == b),
{
    assert((((1u64 << b) >> j) & 1u64 == 1u64) == (j == b)) by (bit_vector)
        requires
            b < 64,
            j < 64,
    ;
}

pub proof fn lemma_bit_or(a: u64, b: u64, j: u64)
    requires
        j < 64,
    ensures
        bit_of(a | b, j) == (bit_of(a, j) || bit_of(b, j)),
{
    assert((((a | b) >> j) & 1u64 == 1u64) == (((a >> j) & 1u64 == 1u64) || ((b >> j) & 1u64
        == 1u64))) by (bit_vector)
        requires
            j < 64,
    ;
}

pub proof fn lemma_bit_and(a: u64, b: u64, j: u64)
    requires
        j < 64,
    ensures
        bit_of(a & b, j) == (bit_of(a, j) && bit_of(b, j)),
{
    assert((((a & b) >> j) & 1u64 == 1u64) == (((a >> j) & 1u64 == 1u64) && ((b >> j) & 1u64
        == 1u64))) by (bit_vector)
        requires
            j < 64,
    ;
}

pub proof fn lemma_bit_and_not(a: u64, b: u64, j: u64)
    requires
        j < 64,
    ensures
        bit_of(a & !b, j) == (bit_of(a, j) && !bit_of(b, j)),
{
    assert((((a & !b) >> j) & 1u64 == 1u64) == (((a >> j) & 1u64 == 1u64) && !((b >> j) & 1u64
        == 1u64))) by (bit_vector)
        requires
            j < 64,
    ;
}

/// The mask `u64::MAX << b` holds exactly the bits at or above `b`.
pub proof fn lemma_bit_high_mask(b: u64, j: u64)
    requires
        b < 64,
        j < 64,
    ensures
        bit_of(0xffff_ffff_ffff_ffffu64 << b, j) == (j >= b),
{
    assert((((0xffff_ffff_ffff_ffffu64 << b) >> j) & 1u64 == 1u64) == (j >= b)) by (bit_vector)
        requires
            b < 64,
            j < 64,
    ;
}

/// The mask `(1 << b) - 1` holds exactly the bits below `b`.
pub proof fn lemma_bit_low_mask(b: u64, j: u64)
    requires
        0 < b < 64,
        j < 64,
    ensures
        (1u64 << b) >= 1,
        bit_of(((1u64 << b) - 1) as u64, j) == (j < b),
{
    assert((1u64 << b) >= 1) by (bit_vector)
        requires
            b < 64,
    ;
    assert(((((1u64 << b) - 1u64) as u64 >> j) & 1u64 == 1u64) == (j < b)) by (bit_vector)
        requires
            0 < b < 64,
            (1u64 << b) >= 1,
            j < 64,
    ;
}

/// A word is zero exactly when none of its 64 bits is set.
pub proof fn lemma_word_zero(w: u64)
    ensures
        w == 0 <==> (forall|j: u64| j < 64 ==> !#[trigger] bit_of(w, j)),
{
    if w == 0 {
        assert forall|j: u64| j < 64 implies !#[trigger] bit_of(w, j) by {
            lemma_bit_zero(j);
        }
    } else {
        let t = w.trailing_zeros();
        vstd::std_specs::bits::axiom_u64_trailing_zeros(w);
        assert(bit_of(w, t as u64));
    }
}

/// Or-ing and and-ing with a zero word.
pub proof fn lemma_zero_word_ops(x: u64)
    ensures
        x | 0u64 == x,
        0u64 | x == x,
        x & !0u64 == x,
        0u64 & x == 0u64,
{
    assert(x | 0u64 == x) by (bit_vector);
    assert(0u64 | x == x) by (bit_vector);
    assert(x & !0u64 == x) by (bit_vector);
    assert(0u64 & x == 0u64) by (bit_vector);
}

/// Testing a word against a single-bit mask reads that bit.
pub proof fn lemma_bit_test(w: u64, b: u64)
    requires
        b < 64,
    ensures
        ((w & (1u64 << b)) != 0) == bit_of(w, b),
{
    assert(((w & (1u64 << b)) != 0) == ((w >> b) & 1u64 == 1u64)) by (bit_vector)
        requires
            b < 64,
    ;
}

/// Clearing the lowest set bit `t` of `w` with `w & (w - 1)`.
pub proof fn lemma_clear_lowest(w: u64, t: u64, k: u64)
    requires
        w != 0,
        t < 64,
        (w >> t) & 1u64 == 1u64,
        w << ((64u64 - t) as u64) == 0,
        k < 64,
    ensures
        bit_of(w & ((w - 1) as u64), k) == (bit_of(w, k) && k != t),
        k < t ==> !bit_of(w, k),
        w & ((w - 1) as u64) < w,
{
    assert((((w & ((w - 1) as u64)) >> k) & 1u64 == 1u64) == (((w >> k) & 1u64 == 1u64) && k
        != t)) by (bit_vector)
        requires
            w != 0,
            t < 64,
            (w >> t) & 1u64 == 1u64,
            w << ((64u64 - t) as u64) == 0,
            k < 64,
    ;
    assert(k < t ==> !((w >> k) & 1u64 == 1u64)) by (bit_vector)
        requires
            t < 64,
            w << ((64u64 - t) as u64) == 0,
            k < 64,
    ;
    assert(w & ((w - 1) as u64) < w) by (bit_vector)
        requires
            w != 0,
    ;
}

/// The word index and the bit index of an id.
pub proof fn lemma_id_split(id: usize)
    ensures
        id >> 6 == id / 64,
        id & 63 == id % 64,
        (id / 64) < usize::MAX as int / 64 + 1,
{
    assert(id >> 6 == id / 64) by (bit_vector);
    assert(id & 63 == id % 64) by (bit_vector);
}

} // verus!
