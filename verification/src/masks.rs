//! Candidate bitmasks.
//!
//! A cell's remaining candidates are a 9-bit set in a `u16`: bit `d - 1` set
//! means digit `d` (1..=9) is still possible. The same representation is used
//! for sets of positions 0..9 inside a unit (bit `k` set means position `k`).

use vstd::prelude::*;

verus! {

/// Bitmask with all nine candidate digits set.
pub const ALL_CANDIDATES: u16 = 0x1ff;

/// Whether bit `k` (0..9) of the 9-bit set `m` is set.
pub open spec fn mask_bit(m: u16, k: int) -> bool {
    0 <= k < 9 && ((m >> (k as u16)) & 1u16) == 1u16
}

/// Whether digit `d` (1..=9) is in the candidate mask `m`.
pub open spec fn has_digit(m: u16, d: int) -> bool {
    mask_bit(m, d - 1)
}

/// Number of bits of `m` set among positions 0..k.
pub open spec fn count_bits_upto(m: u16, k: int) -> nat
    decreases k,
{
    if k <= 0 {
        0
    } else {
        count_bits_upto(m, k - 1) + if mask_bit(m, k - 1) {
            1nat
        } else {
            0nat
        }
    }
}

/// Number of bits of `m` set among positions 0..9.
pub open spec fn count_bits(m: u16) -> nat {
    count_bits_upto(m, 9)
}

/// The digits below `d` present in `m`, in ascending order.
pub open spec fn digits_upto(m: u16, d: int) -> Seq<u8>
    decreases d,
{
    if d <= 1 {
        Seq::empty()
    } else {
        digits_upto(m, d - 1) + if has_digit(m, d - 1) {
            seq![(d - 1) as u8]
        } else {
            Seq::empty()
        }
    }
}

/// The digits of the candidate mask `m`, in ascending order.
pub open spec fn digits_of(m: u16) -> Seq<u8> {
    digits_upto(m, 10)
}

/// Whether digit `d` is in the candidate mask `m`.
pub fn mask_has(m: u16, d: u8) -> (r: bool)
    requires
        1 <= d <= 9,
    ensures
        r == has_digit(m, d as int),
{
    (m >> ((d - 1) as u16)) & 1u16 == 1u16
}

/// Whether bit `k` (a position 0..9) of `m` is set.
pub fn mask_has_bit(m: u16, k: usize) -> (r: bool)
    requires
        k < 9,
    ensures
        r == mask_bit(m, k as int),
{
    (m >> (k as u16)) & 1u16 == 1u16
}

/// Number of bits set in the 9-bit set `m`.
pub fn mask_count(m: u16) -> (n: usize)
    ensures
        n == count_bits(m),
{
    let mut n: usize = 0;
    for k in 0..9usize
        invariant
            n == count_bits_upto(m, k as int),
            n <= k,
    {
        if mask_has_bit(m, k) {
            n = n + 1;
        }
    }
    n
}

/// The lowest digit present in `m`.
pub fn mask_lowest_digit(m: u16) -> (d: u8)
    requires
        count_bits(m) >= 1,
    ensures
        1 <= d <= 9,
        has_digit(m, d as int),
        forall|e: int| 1 <= e < d ==> !has_digit(m, e),
{
    let mut d: u8 = 1;
    while d <= 9
        invariant
            1 <= d <= 10,
            count_bits(m) >= 1,
            forall|e: int| 1 <= e < d ==> !has_digit(m, e),
        decreases 10 - d,
    {
        if mask_has(m, d) {
            return d;
        }
        d = d + 1;
    }
    proof {
        assert forall|k: int| 0 <= k < 9 implies !mask_bit(m, k) by {
            assert(!has_digit(m, k + 1));
        }
        lemma_count_upto_none(m, 9);
    }
    1
}

/// The digits of `m` in ascending order, as a vector.
pub fn mask_to_vec(mask: u16) -> (r: Vec<u8>)
    ensures
        r@ == digits_of(mask),
{
    let mut r: Vec<u8> = Vec::new();
    let mut d: u8 = 1;
    while d <= 9
        invariant
            1 <= d <= 10,
            r@ == digits_upto(mask, d as int),
        decreases 10 - d,
    {
        if mask_has(mask, d) {
            r.push(d);
        }
        d = d + 1;
    }
    r
}

/// Bits of a union are the union of the bits.
pub proof fn lemma_mask_or(a: u16, b: u16)
    ensures
        forall|k: int| #[trigger] mask_bit(a | b, k) <==> mask_bit(a, k) || mask_bit(b, k),
{
    assert forall|k: int| #[trigger] mask_bit(a | b, k) <==> mask_bit(a, k) || mask_bit(b, k) by {
        if 0 <= k < 9 {
            let ku = k as u16;
            assert(((((a | b) >> ku) & 1u16) == 1u16) <==> ((((a >> ku) & 1u16) == 1u16) || (((b
                >> ku) & 1u16) == 1u16))) by (bit_vector);
        }
    }
}

/// Bits of an intersection are the intersection of the bits.
pub proof fn lemma_mask_and(a: u16, b: u16)
    ensures
        forall|k: int| #[trigger] mask_bit(a & b, k) <==> mask_bit(a, k) && mask_bit(b, k),
        a & b <= a,
        a & b <= b,
{
    assert(a & b <= a && a & b <= b) by (bit_vector);
    assert forall|k: int| #[trigger] mask_bit(a & b, k) <==> mask_bit(a, k) && mask_bit(b, k) by {
        if 0 <= k < 9 {
            let ku = k as u16;
            assert(((((a & b) >> ku) & 1u16) == 1u16) <==> ((((a >> ku) & 1u16) == 1u16) && (((b
                >> ku) & 1u16) == 1u16))) by (bit_vector);
        }
    }
}

/// Bits of `m` with bit `j` cleared.
pub proof fn lemma_mask_clear(m: u16, j: u16)
    requires
        j < 9,
    ensures
        forall|k: int| #[trigger] mask_bit(m & !(1u16 << j), k) <==> mask_bit(m, k) && k != j,
        m & !(1u16 << j) <= m,
{
    assert(m & !(1u16 << j) <= m) by (bit_vector);
    assert forall|k: int| #[trigger] mask_bit(m & !(1u16 << j), k) <==> mask_bit(m, k) && k != j by {
        if 0 <= k < 9 {
            let ku = k as u16;
            assert((((m & !(1u16 << j)) >> ku) & 1u16 == 1u16) <==> (((m >> ku) & 1u16 == 1u16)
                && ku != j)) by (bit_vector)
                requires
                    j < 9,
                    ku < 9,
            ;
        }
    }
}

/// Bits of the single-bit mask `1 << j`.
pub proof fn lemma_mask_single(j: u16)
    requires
        j < 9,
    ensures
        forall|k: int| #[trigger] mask_bit(1u16 << j, k) <==> k == j,
        (1u16 << j) < 512,
{
    assert((1u16 << j) < 512) by (bit_vector)
        requires
            j < 9,
    ;
    assert forall|k: int| #[trigger] mask_bit(1u16 << j, k) <==> k == j by {
        if 0 <= k < 9 {
            let ku = k as u16;
            assert((((1u16 << j) >> ku) & 1u16 == 1u16) <==> ku == j) by (bit_vector)
                requires
                    j < 9,
                    ku < 9,
            ;
        }
    }
}

/// Bits of the full mask and of the empty mask.
pub proof fn lemma_mask_extremes()
    ensures
        forall|k: int| #[trigger] mask_bit(0x1ffu16, k) <==> 0 <= k < 9,
        forall|k: int| !mask_bit(0u16, k),
{
    assert forall|k: int| #[trigger] mask_bit(0x1ffu16, k) <==> 0 <= k < 9 by {
        if 0 <= k < 9 {
            let ku = k as u16;
            assert(((0x1ffu16 >> ku) & 1u16) == 1u16) by (bit_vector)
                requires
                    ku < 9,
            ;
        }
    }
    assert forall|k: int| !mask_bit(0u16, k) by {
        if 0 <= k < 9 {
            let ku = k as u16;
            assert(((0u16 >> ku) & 1u16) == 0u16) by (bit_vector);
        }
    }
}

/// Two 9-bit sets with the same bits are equal.
pub proof fn lemma_mask_ext(a: u16, b: u16)
    requires
        a < 512,
        b < 512,
        forall|k: int| 0 <= k < 9 ==> (mask_bit(a, k) <==> mask_bit(b, k)),
    ensures
        a == b,
{
    assert forall|ku: u16| ku < 9 implies ((a >> ku) & 1u16) == ((b >> ku) & 1u16) by {
        lemma_bit_is_boolean(a, ku);
        lemma_bit_is_boolean(b, ku);
        assert(mask_bit(a, ku as int) <==> mask_bit(b, ku as int));
    }
    assert(((a >> 0u16) & 1u16) == ((b >> 0u16) & 1u16));
    assert(((a >> 1u16) & 1u16) == ((b >> 1u16) & 1u16));
    assert(((a >> 2u16) & 1u16) == ((b >> 2u16) & 1u16));
    assert(((a >> 3u16) & 1u16) == ((b >> 3u16) & 1u16));
    assert(((a >> 4u16) & 1u16) == ((b >> 4u16) & 1u16));
    assert(((a >> 5u16) & 1u16) == ((b >> 5u16) & 1u16));
    assert(((a >> 6u16) & 1u16) == ((b >> 6u16) & 1u16));
    assert(((a >> 7u16) & 1u16) == ((b >> 7u16) & 1u16));
    assert(((a >> 8u16) & 1u16) == ((b >> 8u16) & 1u16));
    assert(a == b) by (bit_vector)
        requires
            a < 512,
            b < 512,
            ((a >> 0u16) & 1u16) == ((b >> 0u16) & 1u16),
            ((a >> 1u16) & 1u16) == ((b >> 1u16) & 1u16),
            ((a >> 2u16) & 1u16) == ((b >> 2u16) & 1u16),
            ((a >> 3u16) & 1u16) == ((b >> 3u16) & 1u16),
            ((a >> 4u16) & 1u16) == ((b >> 4u16) & 1u16),
            ((a >> 5u16) & 1u16) == ((b >> 5u16) & 1u16),
            ((a >> 6u16) & 1u16) == ((b >> 6u16) & 1u16),
            ((a >> 7u16) & 1u16) == ((b >> 7u16) & 1u16),
            ((a >> 8u16) & 1u16) == ((b >> 8u16) & 1u16),
    ;
}

/// A single extracted bit is zero or one.
proof fn lemma_bit_is_boolean(x: u16, k: u16)
    ensures
        ((x >> k) & 1u16) == 0u16 || ((x >> k) & 1u16) == 1u16,
{
    assert(((x >> k) & 1u16) == 0u16 || ((x >> k) & 1u16) == 1u16) by (bit_vector);
}

/// The union of two 9-bit sets is a 9-bit set.
pub proof fn lemma_mask_or_bound(a: u16, b: u16)
    requires
        a < 512,
        b < 512,
    ensures
        (a | b) < 512,
{
    assert((a | b) < 512) by (bit_vector)
        requires
            a < 512,
            b < 512,
    ;
}

/// A 9-bit set is nonzero exactly when it has some bit set.
pub proof fn lemma_nonzero_has_bit(m: u16)
    requires
        m < 512,
    ensures
        (m != 0) <==> (exists|k: int| mask_bit(m, k)),
{
    lemma_mask_extremes();
    if m != 0 {
        if !(exists|k: int| mask_bit(m, k)) {
            assert(forall|k: int| 0 <= k < 9 ==> (mask_bit(m, k) <==> mask_bit(0u16, k)));
            lemma_mask_ext(m, 0u16);
        }
    }
}

/// A mask with no bits set below `k` has count 0 up to `k`.
pub proof fn lemma_count_upto_none(m: u16, k: int)
    requires
        forall|j: int| 0 <= j < k ==> !mask_bit(m, j),
    ensures
        count_bits_upto(m, k) == 0,
    decreases k,
{
    if k > 0 {
        lemma_count_upto_none(m, k - 1);
    }
}

/// Two masks that agree on every bit below `k` have equal counts up to `k`.
pub proof fn lemma_count_upto_eq(a: u16, b: u16, k: int)
    requires
        forall|j: int| 0 <= j < k ==> (mask_bit(a, j) <==> mask_bit(b, j)),
    ensures
        count_bits_upto(a, k) == count_bits_upto(b, k),
    decreases k,
{
    if k > 0 {
        lemma_count_upto_eq(a, b, k - 1);
    }
}

/// A pointwise subset has a count no larger, up to `k`.
pub proof fn lemma_count_upto_le(a: u16, b: u16, k: int)
    requires
        forall|j: int| 0 <= j < k ==> mask_bit(a, j) ==> mask_bit(b, j),
    ensures
        count_bits_upto(a, k) <= count_bits_upto(b, k),
    decreases k,
{
    if k > 0 {
        lemma_count_upto_le(a, b, k - 1);
    }
}

/// Counting splits off one present bit: clearing it lowers the count by one.
pub proof fn lemma_count_split(m: u16, j: u16, k: int)
    requires
        j < 9,
        mask_bit(m, j as int),
    ensures
        count_bits_upto(m, k) == count_bits_upto(m & !(1u16 << j), k) + if (j as int) < k {
            1int
        } else {
            0int
        },
    decreases k,
{
    lemma_mask_clear(m, j);
    if k > 0 {
        lemma_count_split(m, j, k - 1);
    }
}

/// A mask with exactly one bit set holds exactly its lowest digit.
pub proof fn lemma_count_one_unique(m: u16, d: int)
    requires
        count_bits(m) == 1,
        has_digit(m, d),
    ensures
        forall|e: int| e != d ==> !has_digit(m, e),
{
    let j = (d - 1) as u16;
    lemma_count_split(m, j, 9);
    let cleared = m & !(1u16 << j);
    assert(count_bits(cleared) == 0);
    lemma_mask_clear(m, j);
    assert forall|e: int| e != d implies !has_digit(m, e) by {
        if has_digit(m, e) {
            assert(mask_bit(cleared, e - 1));
            lemma_count_upto_some(cleared, e - 1, 9);
        }
    }
}

/// A mask with a bit set below `k` has a positive count up to `k`.
pub proof fn lemma_count_upto_some(m: u16, j: int, k: int)
    requires
        mask_bit(m, j),
        j < k,
    ensures
        count_bits_upto(m, k) >= 1,
    decreases k,
{
    if j < k - 1 {
        lemma_count_upto_some(m, j, k - 1);
    }
}

/// The lowest set bit position at or above `k`, or 9 when none.
pub open spec fn low_pos_from(m: u16, k: int) -> int
    decreases 9 - k,
{
    if k < 0 || k >= 9 {
        9
    } else if mask_bit(m, k) {
        k
    } else {
        low_pos_from(m, k + 1)
    }
}

/// The lowest set bit position of `m`, or 9 when `m` has no bit.
pub open spec fn low_pos(m: u16) -> int {
    low_pos_from(m, 0)
}

/// Below a set bit, `low_pos_from` finds a set bit.
proof fn lemma_low_pos_from(m: u16, k: int)
    requires
        0 <= k <= 9,
        exists|j: int| k <= j && #[trigger] mask_bit(m, j),
    ensures
        k <= low_pos_from(m, k) < 9,
        mask_bit(m, low_pos_from(m, k)),
        forall|j: int| k <= j < low_pos_from(m, k) ==> !mask_bit(m, j),
    decreases 9 - k,
{
    if k < 9 && !mask_bit(m, k) {
        lemma_low_pos_from(m, k + 1);
    }
}

/// A non-empty mask has a well-defined lowest bit.
pub proof fn lemma_low_pos(m: u16)
    requires
        count_bits(m) >= 1,
    ensures
        0 <= low_pos(m) < 9,
        mask_bit(m, low_pos(m)),
        forall|j: int| 0 <= j < low_pos(m) ==> !mask_bit(m, j),
{
    if !(exists|j: int| 0 <= j && #[trigger] mask_bit(m, j)) {
        assert(forall|j: int| 0 <= j < 9 ==> !mask_bit(m, j));
        lemma_count_upto_none(m, 9);
    }
    lemma_low_pos_from(m, 0);
}

/// The position of the lowest set bit of `m`.
pub fn mask_low_pos(m: u16) -> (p: usize)
    requires
        count_bits(m) >= 1,
    ensures
        p == low_pos(m),
        p < 9,
        mask_bit(m, p as int),
{
    proof {
        lemma_low_pos(m);
    }
    let mut k: usize = 0;
    while k < 9
        invariant
            k <= 9,
            count_bits(m) >= 1,
            low_pos(m) == low_pos_from(m, k as int),
            forall|j: int| 0 <= j < k ==> !mask_bit(m, j),
        decreases 9 - k,
    {
        if mask_has_bit(m, k) {
            return k;
        }
        k = k + 1;
    }
    proof {
        lemma_count_upto_none(m, 9);
    }
    0
}


/// Setting a clear bit and clearing it again restores the mask.
pub proof fn lemma_set_clear_roundtrip(m: u16, j: u16)
    requires
        j < 16,
        ((m >> j) & 1u16) == 0u16,
    ensures
        ((m | (1u16 << j)) & !(1u16 << j)) == m,
{
    assert(((m >> j) & 1u16) == 0u16 ==> ((m | (1u16 << j)) & !(1u16 << j)) == m) by (bit_vector);
}

} // verus!
