//! Facts about single bits of 64-bit words, used by the bitboard code.
use vstd::prelude::*;

verus! {

/// Bit `i` of `x` is set (`i` outside `0..64` is never set).
pub open spec fn has_bit(x: u64, i: int) -> bool {
    0 <= i < 64 && (x >> (i as u64)) & 1u64 == 1u64
}

/// The word with exactly bit `i` set.
pub open spec fn single(i: int) -> u64 {
    1u64 << (i as u64)
}

pub proof fn lemma_bit_or(x: u64, y: u64, i: u64)
    requires
        i < 64,
    ensures
        ((x | y) >> i) & 1u64 == 1u64 <==> ((x >> i) & 1u64 == 1u64 || (y >> i) & 1u64 == 1u64),
{
    assert(((x | y) >> i) & 1u64 == 1u64 <==> ((x >> i) & 1u64 == 1u64 || (y >> i) & 1u64 == 1u64))
        by (bit_vector)
        requires
            i < 64,
    ;
}

pub proof fn lemma_bit_and(x: u64, y: u64, i: u64)
    requires
        i < 64,
    ensures
        ((x & y) >> i) & 1u64 == 1u64 <==> ((x >> i) & 1u64 == 1u64 && (y >> i) & 1u64 == 1u64),
{
    assert(((x & y) >> i) & 1u64 == 1u64 <==> ((x >> i) & 1u64 == 1u64 && (y >> i) & 1u64 == 1u64))
        by (bit_vector)
        requires
            i < 64,
    ;
}

pub proof fn lemma_bit_not(x: u64, i: u64)
    requires
        i < 64,
    ensures
        ((!x) >> i) & 1u64 == 1u64 <==> !((x >> i) & 1u64 == 1u64),
{
    assert(((!x) >> i) & 1u64 == 1u64 <==> !((x >> i) & 1u64 == 1u64)) by (bit_vector)
        requires
            i < 64,
    ;
}

pub proof fn lemma_bit_single(j: u64, i: u64)
    requires
        i < 64,
        j < 64,
    ensures
        ((1u64 << j) >> i) & 1u64 == 1u64 <==> i == j,
{
    assert(((1u64 << j) >> i) & 1u64 == 1u64 <==> i == j) by (bit_vector)
        requires
            i < 64,
            j < 64,
    ;
}

pub proof fn lemma_bit_zero(i: u64)
    requires
        i < 64,
    ensures
        !((0u64 >> i) & 1u64 == 1u64),
{
    assert(!((0u64 >> i) & 1u64 == 1u64)) by (bit_vector);
}

/// The word-level operations, stated bit by bit for every square.
pub proof fn lemma_bits_all()
    ensures
        forall|x: u64, y: u64, i: int| #![trigger has_bit(x | y, i)]
            has_bit(x | y, i) <==> (has_bit(x, i) || has_bit(y, i)),
        forall|x: u64, y: u64, i: int| #![trigger has_bit(x & y, i)]
            has_bit(x & y, i) <==> (has_bit(x, i) && has_bit(y, i)),
        forall|x: u64, i: int| #![trigger has_bit(!x, i)]
            0 <= i < 64 ==> (has_bit(!x, i) <==> !has_bit(x, i)),
        forall|j: int, i: int| #![trigger has_bit(single(j), i)]
            0 <= j < 64 ==> (has_bit(single(j), i) <==> i == j),
        forall|i: int| !#[trigger] has_bit(0u64, i),
{
    assert forall|x: u64, y: u64, i: int| #![trigger has_bit(x | y, i)]
        has_bit(x | y, i) <==> (has_bit(x, i) || has_bit(y, i)) by {
        if 0 <= i < 64 {
            lemma_bit_or(x, y, i as u64);
        }
    }
    assert forall|x: u64, y: u64, i: int| #![trigger has_bit(x & y, i)]
        has_bit(x & y, i) <==> (has_bit(x, i) && has_bit(y, i)) by {
        if 0 <= i < 64 {
            lemma_bit_and(x, y, i as u64);
        }
    }
    assert forall|x: u64, i: int| #![trigger has_bit(!x, i)]
        0 <= i < 64 implies (has_bit(!x, i) <==> !has_bit(x, i)) by {
        lemma_bit_not(x, i as u64);
    }
    assert forall|j: int, i: int| #![trigger has_bit(single(j), i)]
        0 <= j < 64 implies (has_bit(single(j), i) <==> i == j) by {
        if 0 <= i < 64 {
            lemma_bit_single(j as u64, i as u64);
        }
    }
    assert forall|i: int| !#[trigger] has_bit(0u64, i) by {
        if 0 <= i < 64 {
            lemma_bit_zero(i as u64);
        }
    }
}

/// Two words with the same bits are equal.
pub proof fn lemma_bits_ext(x: u64, y: u64)
    requires
        forall|i: int| 0 <= i < 64 ==> (has_bit(x, i) <==> has_bit(y, i)),
    ensures
        x == y,
{
    let z = x ^ y;
    assert forall|i: u64| i < 64 implies ((x ^ y) >> i) & 1u64 == 0u64 by {
        assert(has_bit(x, i as int) <==> has_bit(y, i as int));
        assert(((x >> i) & 1u64 == 1u64 <==> (y >> i) & 1u64 == 1u64) ==> ((x ^ y) >> i) & 1u64 == 0u64)
            by (bit_vector)
            requires
                i < 64,
        ;
    }
    lemma_zero_word(z);
    assert(x ^ y == 0u64 ==> x == y) by (bit_vector);
}

/// A word none of whose bits is set is zero.
pub proof fn lemma_zero_word(z: u64)
    requires
        forall|i: u64| i < 64 ==> (#[trigger] (z >> i) & 1u64) == 0u64,
    ensures
        z == 0u64,
{
    let b = |i: u64| (z >> i) & 1u64;
    assert(b(0) == 0 && b(1) == 0 && b(2) == 0 && b(3) == 0 && b(4) == 0 && b(5) == 0 && b(6) == 0 && b(7) == 0);
    assert(b(8) == 0 && b(9) == 0 && b(10) == 0 && b(11) == 0 && b(12) == 0 && b(13) == 0 && b(14) == 0 && b(15) == 0);
    assert(b(16) == 0 && b(17) == 0 && b(18) == 0 && b(19) == 0 && b(20) == 0 && b(21) == 0 && b(22) == 0 && b(23) == 0);
    assert(b(24) == 0 && b(25) == 0 && b(26) == 0 && b(27) == 0 && b(28) == 0 && b(29) == 0 && b(30) == 0 && b(31) == 0);
    assert(b(32) == 0 && b(33) == 0 && b(34) == 0 && b(35) == 0 && b(36) == 0 && b(37) == 0 && b(38) == 0 && b(39) == 0);
    assert(b(40) == 0 && b(41) == 0 && b(42) == 0 && b(43) == 0 && b(44) == 0 && b(45) == 0 && b(46) == 0 && b(47) == 0);
    assert(b(48) == 0 && b(49) == 0 && b(50) == 0 && b(51) == 0 && b(52) == 0 && b(53) == 0 && b(54) == 0 && b(55) == 0);
    assert(b(56) == 0 && b(57) == 0 && b(58) == 0 && b(59) == 0 && b(60) == 0 && b(61) == 0 && b(62) == 0 && b(63) == 0);
    lemma_zero_word_bv(z);
}

proof fn lemma_zero_word_bv(z: u64)
    requires
        (z >> 0u64) & 1u64 == 0 && (z >> 1u64) & 1u64 == 0 && (z >> 2u64) & 1u64 == 0 && (z >> 3u64) & 1u64 == 0,
        (z >> 4u64) & 1u64 == 0 && (z >> 5u64) & 1u64 == 0 && (z >> 6u64) & 1u64 == 0 && (z >> 7u64) & 1u64 == 0,
        (z >> 8u64) & 1u64 == 0 && (z >> 9u64) & 1u64 == 0 && (z >> 10u64) & 1u64 == 0 && (z >> 11u64) & 1u64 == 0,
        (z >> 12u64) & 1u64 == 0 && (z >> 13u64) & 1u64 == 0 && (z >> 14u64) & 1u64 == 0 && (z >> 15u64) & 1u64 == 0,
        (z >> 16u64) & 1u64 == 0 && (z >> 17u64) & 1u64 == 0 && (z >> 18u64) & 1u64 == 0 && (z >> 19u64) & 1u64 == 0,
        (z >> 20u64) & 1u64 == 0 && (z >> 21u64) & 1u64 == 0 && (z >> 22u64) & 1u64 == 0 && (z >> 23u64) & 1u64 == 0,
        (z >> 24u64) & 1u64 == 0 && (z >> 25u64) & 1u64 == 0 && (z >> 26u64) & 1u64 == 0 && (z >> 27u64) & 1u64 == 0,
        (z >> 28u64) & 1u64 == 0 && (z >> 29u64) & 1u64 == 0 && (z >> 30u64) & 1u64 == 0 && (z >> 31u64) & 1u64 == 0,
        (z >> 32u64) & 1u64 == 0 && (z >> 33u64) & 1u64 == 0 && (z >> 34u64) & 1u64 == 0 && (z >> 35u64) & 1u64 == 0,
        (z >> 36u64) & 1u64 == 0 && (z >> 37u64) & 1u64 == 0 && (z >> 38u64) & 1u64 == 0 && (z >> 39u64) & 1u64 == 0,
        (z >> 40u64) & 1u64 == 0 && (z >> 41u64) & 1u64 == 0 && (z >> 42u64) & 1u64 == 0 && (z >> 43u64) & 1u64 == 0,
        (z >> 44u64) & 1u64 == 0 && (z >> 45u64) & 1u64 == 0 && (z >> 46u64) & 1u64 == 0 && (z >> 47u64) & 1u64 == 0,
        (z >> 48u64) & 1u64 == 0 && (z >> 49u64) & 1u64 == 0 && (z >> 50u64) & 1u64 == 0 && (z >> 51u64) & 1u64 == 0,
        (z >> 52u64) & 1u64 == 0 && (z >> 53u64) & 1u64 == 0 && (z >> 54u64) & 1u64 == 0 && (z >> 55u64) & 1u64 == 0,
        (z >> 56u64) & 1u64 == 0 && (z >> 57u64) & 1u64 == 0 && (z >> 58u64) & 1u64 == 0 && (z >> 59u64) & 1u64 == 0,
        (z >> 60u64) & 1u64 == 0 && (z >> 61u64) & 1u64 == 0 && (z >> 62u64) & 1u64 == 0 && (z >> 63u64) & 1u64 == 0,
    ensures
        z == 0u64,
{
    assert(z == 0u64) by (bit_vector)
        requires
            (z >> 0u64) & 1u64 == 0 && (z >> 1u64) & 1u64 == 0 && (z >> 2u64) & 1u64 == 0 && (z >> 3u64) & 1u64 == 0,
            (z >> 4u64) & 1u64 == 0 && (z >> 5u64) & 1u64 == 0 && (z >> 6u64) & 1u64 == 0 && (z >> 7u64) & 1u64 == 0,
            (z >> 8u64) & 1u64 == 0 && (z >> 9u64) & 1u64 == 0 && (z >> 10u64) & 1u64 == 0 && (z >> 11u64) & 1u64 == 0,
            (z >> 12u64) & 1u64 == 0 && (z >> 13u64) & 1u64 == 0 && (z >> 14u64) & 1u64 == 0 && (z >> 15u64) & 1u64 == 0,
            (z >> 16u64) & 1u64 == 0 && (z >> 17u64) & 1u64 == 0 && (z >> 18u64) & 1u64 == 0 && (z >> 19u64) & 1u64 == 0,
            (z >> 20u64) & 1u64 == 0 && (z >> 21u64) & 1u64 == 0 && (z >> 22u64) & 1u64 == 0 && (z >> 23u64) & 1u64 == 0,
            (z >> 24u64) & 1u64 == 0 && (z >> 25u64) & 1u64 == 0 && (z >> 26u64) & 1u64 == 0 && (z >> 27u64) & 1u64 == 0,
            (z >> 28u64) & 1u64 == 0 && (z >> 29u64) & 1u64 == 0 && (z >> 30u64) & 1u64 == 0 && (z >> 31u64) & 1u64 == 0,
            (z >> 32u64) & 1u64 == 0 && (z >> 33u64) & 1u64 == 0 && (z >> 34u64) & 1u64 == 0 && (z >> 35u64) & 1u64 == 0,
            (z >> 36u64) & 1u64 == 0 && (z >> 37u64) & 1u64 == 0 && (z >> 38u64) & 1u64 == 0 && (z >> 39u64) & 1u64 == 0,
            (z >> 40u64) & 1u64 == 0 && (z >> 41u64) & 1u64 == 0 && (z >> 42u64) & 1u64 == 0 && (z >> 43u64) & 1u64 == 0,
            (z >> 44u64) & 1u64 == 0 && (z >> 45u64) & 1u64 == 0 && (z >> 46u64) & 1u64 == 0 && (z >> 47u64) & 1u64 == 0,
            (z >> 48u64) & 1u64 == 0 && (z >> 49u64) & 1u64 == 0 && (z >> 50u64) & 1u64 == 0 && (z >> 51u64) & 1u64 == 0,
            (z >> 52u64) & 1u64 == 0 && (z >> 53u64) & 1u64 == 0 && (z >> 54u64) & 1u64 == 0 && (z >> 55u64) & 1u64 == 0,
            (z >> 56u64) & 1u64 == 0 && (z >> 57u64) & 1u64 == 0 && (z >> 58u64) & 1u64 == 0 && (z >> 59u64) & 1u64 == 0,
            (z >> 60u64) & 1u64 == 0 && (z >> 61u64) & 1u64 == 0 && (z >> 62u64) & 1u64 == 0 && (z >> 63u64) & 1u64 == 0,
    ;
}

/// A word with a set bit is not zero, and a non-zero word has a set bit.
pub proof fn lemma_nonzero_iff_bit(x: u64)
    ensures
        x != 0u64 <==> exists|i: int| 0 <= i < 64 && #[trigger] has_bit(x, i),
{
    if x != 0u64 {
        if forall|i: u64| i < 64 ==> (#[trigger] (x >> i) & 1u64) == 0u64 {
            lemma_zero_word(x);
        } else {
            let i = choose|i: u64| i < 64 && !((#[trigger] (x >> i) & 1u64) == 0u64);
            assert(((x >> i) & 1u64) != 0u64 ==> (x >> i) & 1u64 == 1u64) by (bit_vector);
            assert(has_bit(x, i as int));
        }
    } else {
        lemma_bits_all();
    }
}

} // verus!
