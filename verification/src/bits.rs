//! Bit-level foundation for the 81-cell board masks.
//!
//! Every candidate set, completed-cell set and constraint group is a `u128`
//! whose low 81 bits stand for the cells of a 9x9 grid, row-major.  The spec
//! model of a mask is the predicate `get_bit`; `count_bits` gives the
//! counting vocabulary that the contracts are stated in.

use vstd::prelude::*;

verus! {

/// True when bit `i` of `m` is set.
pub open spec fn get_bit(m: u128, i: u128) -> bool {
    (m >> i) & 1 == 1
}

/// A mask is confined to the 81 board cells: no bit at or above 81 is set.
pub open spec fn wf81(m: u128) -> bool {
    forall|i: u128| 81 <= i < 128 ==> !get_bit(m, i)
}

/// Number of set bits of `m` below position `n`.
pub open spec fn count_bits(m: u128, n: int) -> int
    decreases n,
{
    if n <= 0 {
        0
    } else {
        count_bits(m, n - 1) + if 0 <= n - 1 < 128 && get_bit(m, (n - 1) as u128) {
            1int
        } else {
            0int
        }
    }
}

pub broadcast proof fn lemma_bit_and(a: u128, b: u128, i: u128)
    requires
        i < 128,
    ensures
        #[trigger] get_bit(a & b, i) == (get_bit(a, i) && get_bit(b, i)),
{
    assert(i < 128 ==> get_bit(a & b, i) == (get_bit(a, i) && get_bit(b, i))) by (bit_vector);
}

pub broadcast proof fn lemma_bit_or(a: u128, b: u128, i: u128)
    requires
        i < 128,
    ensures
        #[trigger] get_bit(a | b, i) == (get_bit(a, i) || get_bit(b, i)),
{
    assert(i < 128 ==> get_bit(a | b, i) == (get_bit(a, i) || get_bit(b, i))) by (bit_vector);
}

pub broadcast proof fn lemma_bit_not(a: u128, i: u128)
    requires
        i < 128,
    ensures
        #[trigger] get_bit(!a, i) == !get_bit(a, i),
{
    assert(i < 128 ==> get_bit(!a, i) == !get_bit(a, i)) by (bit_vector);
}

pub broadcast proof fn lemma_bit_one_shl(j: u128, i: u128)
    requires
        i < 128,
        j < 128,
    ensures
        #[trigger] get_bit(1u128 << j, i) == (i == j),
{
    assert(i < 128 && j < 128 ==> get_bit(1u128 << j, i) == (i == j)) by (bit_vector);
}

pub broadcast proof fn lemma_bit_zero(i: u128)
    requires
        i < 128,
    ensures
        !(#[trigger] get_bit(0u128, i)),
{
    assert(i < 128 ==> !get_bit(0u128, i)) by (bit_vector);
}

/// The mask selecting the bits below position `n`.
spec fn low_mask(n: u128) -> u128 {
    if n >= 128 {
        !0u128
    } else {
        ((1u128 << n) - 1) as u128
    }
}

/// Masks that agree on every bit below `n` agree masked to those bits.
proof fn lemma_low_bits_eq(a: u128, b: u128, n: u128)
    requires
        n <= 128,
        forall|i: u128| i < n ==> get_bit(a, i) == get_bit(b, i),
    ensures
        a & low_mask(n) == b & low_mask(n),
    decreases n,
{
    if n == 0 {
        assert(a & low_mask(0) == b & low_mask(0)) by (bit_vector);
    } else {
        lemma_low_bits_eq(a, b, (n - 1) as u128);
        assert(get_bit(a, (n - 1) as u128) == get_bit(b, (n - 1) as u128));
        assert((a >> ((n - 1) as u128)) & 1 < 2 && (b >> ((n - 1) as u128)) & 1 < 2) by (bit_vector);
        assert(a & low_mask(n) == b & low_mask(n)) by (bit_vector)
            requires
                1 <= n <= 128,
                a & low_mask((n - 1) as u128) == b & low_mask((n - 1) as u128),
                ((a >> ((n - 1) as u128)) & 1) == ((b >> ((n - 1) as u128)) & 1),
        ;
    }
}

/// Two masks with the same bits are the same number.
pub proof fn lemma_bit_ext(a: u128, b: u128)
    requires
        forall|i: u128| i < 128 ==> get_bit(a, i) == get_bit(b, i),
    ensures
        a == b,
{
    lemma_low_bits_eq(a, b, 128);
    assert(a & low_mask(128) == a && b & low_mask(128) == b) by (bit_vector);
}

/// True when bit `i` of the 16-bit digit mask `m` is set.
pub open spec fn get_bit16(m: u16, i: u16) -> bool {
    (m >> i) & 1 == 1
}

pub broadcast proof fn lemma_bit16_or_shl(a: u16, j: u16, i: u16)
    requires
        i < 16,
        j < 16,
    ensures
        #[trigger] get_bit16(a | (1u16 << j), i) == (get_bit16(a, i) || i == j),
{
    assert(i < 16 && j < 16 ==> get_bit16(a | (1u16 << j), i) == (get_bit16(a, i) || i == j))
        by (bit_vector);
}

pub broadcast proof fn lemma_bit16_zero(i: u16)
    requires
        i < 16,
    ensures
        !(#[trigger] get_bit16(0u16, i)),
{
    assert(i < 16 ==> !get_bit16(0u16, i)) by (bit_vector);
}

pub broadcast group group_bit_lemmas {
    lemma_bit_and,
    lemma_bit_or,
    lemma_bit_not,
    lemma_bit_one_shl,
    lemma_bit_zero,
    lemma_bit16_or_shl,
    lemma_bit16_zero,
}

/// A count over any prefix stays between 0 and the prefix length.
pub proof fn lemma_count_bits_bounds(m: u128, n: int)
    requires
        0 <= n,
    ensures
        0 <= count_bits(m, n) <= n,
    decreases n,
{
    if n > 0 {
        lemma_count_bits_bounds(m, n - 1);
    }
}

/// Masks that agree on every bit below `n` are counted alike there.
pub proof fn lemma_count_bits_agree(m1: u128, m2: u128, n: int)
    requires
        n <= 128,
        forall|i: u128| i < n ==> get_bit(m1, i) == get_bit(m2, i),
    ensures
        count_bits(m1, n) == count_bits(m2, n),
    decreases n,
{
    if n > 0 {
        lemma_count_bits_agree(m1, m2, n - 1);
    }
}

/// A mask with pointwise fewer bits has a count at most as large.
pub proof fn lemma_count_bits_le(m1: u128, m2: u128, n: int)
    requires
        n <= 128,
        forall|i: u128| i < n ==> get_bit(m1, i) ==> get_bit(m2, i),
    ensures
        count_bits(m1, n) <= count_bits(m2, n),
    decreases n,
{
    if n > 0 {
        lemma_count_bits_le(m1, m2, n - 1);
    }
}

/// A mask with pointwise fewer bits that misses a witness bit has a strictly
/// smaller count.
pub proof fn lemma_count_bits_lt(m1: u128, m2: u128, n: int, w: u128)
    requires
        n <= 128,
        forall|i: u128| i < n ==> get_bit(m1, i) ==> get_bit(m2, i),
        w < n,
        !get_bit(m1, w),
        get_bit(m2, w),
    ensures
        count_bits(m1, n) < count_bits(m2, n),
    decreases n,
{
    if w == n - 1 {
        lemma_count_bits_le(m1, m2, n - 1);
    } else {
        lemma_count_bits_lt(m1, m2, n - 1, w);
    }
}

/// The count is zero exactly when no bit below `n` is set.
pub proof fn lemma_count_bits_zero(m: u128, n: int)
    requires
        0 <= n <= 128,
    ensures
        count_bits(m, n) == 0 <==> (forall|i: u128| i < n ==> !get_bit(m, i)),
    decreases n,
{
    if n > 0 {
        lemma_count_bits_zero(m, n - 1);
        lemma_count_bits_bounds(m, n - 1);
    }
}

/// The count is one exactly when a unique bit below `n` is set.
pub proof fn lemma_count_bits_one(m: u128, n: int)
    requires
        0 <= n <= 128,
    ensures
        count_bits(m, n) == 1 <==> (exists|w: u128|
            w < n && get_bit(m, w) && (forall|i: u128| i < n && i != w ==> !get_bit(m, i))),
    decreases n,
{
    if n > 0 {
        lemma_count_bits_one(m, n - 1);
        lemma_count_bits_zero(m, n - 1);
        lemma_count_bits_bounds(m, n - 1);
        if count_bits(m, n) == 1 && get_bit(m, (n - 1) as u128) {
            assert(forall|i: u128| i < n && i != (n - 1) as u128 ==> !get_bit(m, i));
        }
    }
}

/// A count of two or more exposes two distinct set bits.
pub proof fn lemma_count_bits_two(m: u128, n: int)
    requires
        0 <= n <= 128,
        count_bits(m, n) >= 2,
    ensures
        exists|i: u128, j: u128|
            #![trigger get_bit(m, i), get_bit(m, j)]
            i < j && j < n && get_bit(m, i) && get_bit(m, j),
    decreases n,
{
    lemma_count_bits_bounds(m, n - 1);
    if count_bits(m, n - 1) >= 2 {
        lemma_count_bits_two(m, n - 1);
    } else {
        assert(get_bit(m, (n - 1) as u128) && count_bits(m, n - 1) == 1);
        lemma_count_bits_one(m, n - 1);
        let i = choose|i: u128|
            i < n - 1 && get_bit(m, i) && (forall|k: u128| k < n - 1 && k != i ==> !get_bit(m, k));
        assert(i < (n - 1) as u128 && ((n - 1) as u128) < n && get_bit(m, i) && get_bit(
            m,
            (n - 1) as u128,
        ));
    }
}

/// Setting one fresh bit raises the count by one.
pub proof fn lemma_count_bits_add_bit(m: u128, j: u128, n: int)
    requires
        j < 128,
        !get_bit(m, j),
        n <= 128,
    ensures
        count_bits(m | (1u128 << j), n) == count_bits(m, n) + if j < n {
            1int
        } else {
            0int
        },
    decreases n,
{
    broadcast use group_bit_lemmas;

    if n > 0 {
        lemma_count_bits_add_bit(m, j, n - 1);
    }
}

/// An exec bit test, the building block of every mask operation.
pub fn mask_get(m: u128, i: u8) -> (r: bool)
    requires
        i < 128,
    ensures
        r == get_bit(m, i as u128),
{
    ((m >> i) & 1) == 1
}

/// Counts the set bits of a cell mask by walking its 81 positions.
pub fn popcount81(m: u128) -> (c: u8)
    requires
        wf81(m),
    ensures
        c == count_bits(m, 81),
{
    let mut c: u8 = 0;
    let mut i: u8 = 0;
    while i < 81
        invariant
            i <= 81,
            c == count_bits(m, i as int),
            c <= i,
        decreases 81 - i,
    {
        if mask_get(m, i) {
            c = c + 1;
        }
        i = i + 1;
    }
    c
}

} // verus!
