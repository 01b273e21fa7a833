//! Candidate sets as 9-bit masks.
//!
//! A square's remaining candidates are a subset of the digits 1..=9, stored
//! as a `u16` in which digit `d` occupies bit `d - 1`. A well-formed mask is
//! therefore below 512; the full set is 511.

use vstd::prelude::*;

verus! {

/// The mask holding all nine digits.
pub const FULL_MASK: u16 = 511;

/// The bit that digit `d` occupies in a mask.
pub open spec fn digit_bit(d: u16) -> u16 {
    1u16 << ((d - 1) as u16)
}

/// Whether digit `d` is a member of the candidate set `m`.
pub open spec fn mask_has(m: u16, d: u16) -> bool {
    m & digit_bit(d) != 0
}

/// Set inclusion of candidate sets.
pub open spec fn submask(a: u16, b: u16) -> bool {
    a & !b == 0
}

/// How many of the digits `lo..=9` are members of `m`.
pub open spec fn count_from(m: u16, lo: u16) -> int
    decreases 10 - lo,
{
    if lo > 9 {
        0
    } else {
        (if mask_has(m, lo) {
            1int
        } else {
            0int
        }) + count_from(m, (lo + 1) as u16)
    }
}

/// The number of candidates in `m`.
pub open spec fn mask_count(m: u16) -> int {
    count_from(m, 1)
}

/// The least digit of a nonempty candidate set (`10` if none in `lo..=9`).
pub open spec fn first_from(m: u16, lo: u16) -> u16
    decreases 10 - lo,
{
    if lo > 9 {
        10
    } else if mask_has(m, lo) {
        lo
    } else {
        first_from(m, (lo + 1) as u16)
    }
}

/// The least digit of a nonempty candidate set.
pub open spec fn first_digit(m: u16) -> u16 {
    first_from(m, 1)
}

pub proof fn lemma_digit_bit_basics(d: u16)
    by (bit_vector)
    requires
        1 <= d <= 9,
    ensures
        digit_bit(d) != 0,
        digit_bit(d) < 512,
        mask_has(digit_bit(d), d),
        mask_has(FULL_MASK, d),
{
}

pub proof fn lemma_digit_bit_other(d: u16, e: u16)
    by (bit_vector)
    requires
        1 <= d <= 9,
        1 <= e <= 9,
        d != e,
    ensures
        !mask_has(digit_bit(d), e),
{
}

/// Removing digit `d` leaves every other digit's membership unchanged.
pub proof fn lemma_remove_effect(m: u16, d: u16, e: u16)
    by (bit_vector)
    requires
        1 <= d <= 9,
        1 <= e <= 9,
    ensures
        mask_has((m & !digit_bit(d)) as u16, e) == (e != d && mask_has(m, e)),
        submask((m & !digit_bit(d)) as u16, m),
        m < 512 ==> (m & !digit_bit(d)) < 512,
{
}

pub proof fn lemma_submask_has(a: u16, b: u16, d: u16)
    by (bit_vector)
    requires
        submask(a, b),
        1 <= d <= 9,
        mask_has(a, d),
    ensures
        mask_has(b, d),
{
}

pub proof fn lemma_submask_refl(a: u16)
    by (bit_vector)
    ensures
        submask(a, a),
{
}

pub proof fn lemma_submask_trans(a: u16, b: u16, c: u16)
    by (bit_vector)
    requires
        submask(a, b),
        submask(b, c),
    ensures
        submask(a, c),
{
}

/// A nonempty subset of a single digit is that digit's singleton.
pub proof fn lemma_submask_singleton(m: u16, d: u16)
    by (bit_vector)
    requires
        1 <= d <= 9,
        m != 0,
        submask(m, digit_bit(d)),
    ensures
        m == digit_bit(d),
{
}

/// Counts over any range lie between 0 and the range's width.
pub proof fn lemma_count_from_bounds(m: u16, lo: u16)
    requires
        1 <= lo <= 10,
    ensures
        0 <= count_from(m, lo) <= 10 - lo,
    decreases 10 - lo,
{
    if lo <= 9 {
        lemma_count_from_bounds(m, (lo + 1) as u16);
    }
}

/// Two masks that agree on membership of `lo..=9` have the same count there.
proof fn lemma_count_from_agree(a: u16, b: u16, lo: u16)
    requires
        1 <= lo <= 10,
        forall|e: u16| lo <= e <= 9 ==> mask_has(a, e) == mask_has(b, e),
    ensures
        count_from(a, lo) == count_from(b, lo),
    decreases 10 - lo,
{
    if lo <= 9 {
        lemma_count_from_agree(a, b, (lo + 1) as u16);
    }
}

/// Masks that agree on every digit have equal counts.
pub proof fn lemma_count_agree(a: u16, b: u16)
    requires
        forall|e: u16| 1 <= e <= 9 ==> mask_has(a, e) == mask_has(b, e),
    ensures
        mask_count(a) == mask_count(b),
{
    lemma_count_from_agree(a, b, 1);
}

proof fn lemma_count_from_submask(a: u16, b: u16, lo: u16)
    requires
        1 <= lo <= 10,
        submask(a, b),
    ensures
        count_from(a, lo) <= count_from(b, lo),
    decreases 10 - lo,
{
    if lo <= 9 {
        if mask_has(a, lo) {
            lemma_submask_has(a, b, lo);
        }
        lemma_count_from_submask(a, b, (lo + 1) as u16);
    }
}

/// Inclusion of candidate sets only lowers the count.
pub proof fn lemma_count_submask(a: u16, b: u16)
    requires
        submask(a, b),
    ensures
        mask_count(a) <= mask_count(b),
{
    lemma_count_from_submask(a, b, 1);
}

/// Removing a present digit lowers the count by exactly one.
pub proof fn lemma_count_remove(m: u16, d: u16)
    requires
        1 <= d <= 9,
        mask_has(m, d),
    ensures
        mask_count((m & !digit_bit(d)) as u16) == mask_count(m) - 1,
{
    lemma_count_from_remove(m, d, 1);
}

proof fn lemma_count_from_remove(m: u16, d: u16, lo: u16)
    requires
        1 <= d <= 9,
        mask_has(m, d),
        1 <= lo <= 10,
    ensures
        count_from((m & !digit_bit(d)) as u16, lo) == count_from(m, lo) - (if lo <= d {
            1int
        } else {
            0int
        }),
    decreases 10 - lo,
{
    if lo <= 9 {
        lemma_remove_effect(m, d, lo);
        lemma_count_from_remove(m, d, (lo + 1) as u16);
    }
}

/// A nonempty well-formed mask contains some digit.
pub proof fn lemma_nonzero_has_digit(m: u16)
    requires
        m != 0,
        m < 512,
    ensures
        exists|d: u16| 1 <= d <= 9 && mask_has(m, d),
{
    assert(mask_has(m, 1) || mask_has(m, 2) || mask_has(m, 3) || mask_has(m, 4) || mask_has(m, 5)
        || mask_has(m, 6) || mask_has(m, 7) || mask_has(m, 8) || mask_has(m, 9)) by (bit_vector)
        requires
            m != 0,
            m < 512,
    ;
}

proof fn lemma_first_from_found(m: u16, lo: u16, e: u16)
    requires
        1 <= lo <= e <= 9,
        mask_has(m, e),
        forall|k: u16| lo <= k < e ==> !mask_has(m, k),
    ensures
        first_from(m, lo) == e,
    decreases 10 - lo,
{
    if lo < e {
        lemma_first_from_found(m, (lo + 1) as u16, e);
    }
}

proof fn lemma_first_from_some(m: u16, lo: u16, e: u16)
    requires
        1 <= lo <= e <= 9,
        mask_has(m, e),
    ensures
        lo <= first_from(m, lo) <= 9,
        mask_has(m, first_from(m, lo)),
    decreases 10 - lo,
{
    if !mask_has(m, lo) {
        lemma_first_from_some(m, (lo + 1) as u16, e);
    }
}

/// The least digit of a nonempty mask is a member in range.
pub proof fn lemma_first_digit(m: u16)
    requires
        m != 0,
        m < 512,
    ensures
        1 <= first_digit(m) <= 9,
        mask_has(m, first_digit(m)),
{
    lemma_nonzero_has_digit(m);
    let e = choose|d: u16| 1 <= d <= 9 && mask_has(m, d);
    lemma_first_from_some(m, 1, e);
}

/// Matches the least member established by a linear scan.
pub proof fn lemma_first_digit_is(m: u16, e: u16)
    requires
        1 <= e <= 9,
        mask_has(m, e),
        forall|k: u16| 1 <= k < e ==> !mask_has(m, k),
    ensures
        first_digit(m) == e,
{
    lemma_first_from_found(m, 1, e);
}

/// An empty count forces the zero mask.
pub proof fn lemma_count_zero(m: u16)
    requires
        m < 512,
        mask_count(m) == 0,
    ensures
        m == 0,
{
    if m != 0 {
        lemma_nonzero_has_digit(m);
        let d = choose|e: u16| 1 <= e <= 9 && mask_has(m, e);
        lemma_count_from_has(m, d, 1);
    }
}

proof fn lemma_count_from_has(m: u16, d: u16, lo: u16)
    requires
        1 <= lo <= d <= 9,
        mask_has(m, d),
    ensures
        count_from(m, lo) >= 1,
    decreases 10 - lo,
{
    lemma_count_from_bounds(m, (lo + 1) as u16);
    if lo < d {
        lemma_count_from_has(m, d, (lo + 1) as u16);
    }
}

proof fn lemma_count_from_two(m: u16, d1: u16, d2: u16, lo: u16)
    requires
        1 <= lo <= d1 < d2 <= 9,
        mask_has(m, d1),
        mask_has(m, d2),
    ensures
        count_from(m, lo) >= 2,
    decreases 10 - lo,
{
    if lo < d1 {
        lemma_count_from_two(m, d1, d2, (lo + 1) as u16);
    } else {
        lemma_count_from_has(m, d2, (lo + 1) as u16);
    }
}

/// Two distinct members force a count of at least two.
pub proof fn lemma_count_two(m: u16, d1: u16, d2: u16)
    requires
        1 <= d1 <= 9,
        1 <= d2 <= 9,
        d1 != d2,
        mask_has(m, d1),
        mask_has(m, d2),
    ensures
        mask_count(m) >= 2,
{
    if d1 < d2 {
        lemma_count_from_two(m, d1, d2, 1);
    } else {
        lemma_count_from_two(m, d2, d1, 1);
    }
}

/// A singleton mask is exactly its one member's bit.
pub proof fn lemma_singleton_mask(m: u16)
    requires
        m != 0,
        m < 512,
        mask_count(m) == 1,
    ensures
        m == digit_bit(first_digit(m)),
{
    lemma_first_digit(m);
    let d = first_digit(m);
    lemma_count_remove(m, d);
    lemma_remove_effect(m, d, 1);
    lemma_count_zero((m & !digit_bit(d)) as u16);
    assert(m & !digit_bit(d) == 0);
    lemma_submask_singleton(m, d);
}

/// The empty mask holds no digit.
pub proof fn lemma_zero_mask_has(e: u16)
    by (bit_vector)
    ensures
        !mask_has(0u16, e),
{
}

/// The empty mask has no candidates.
pub proof fn lemma_zero_mask_count()
    ensures
        mask_count(0u16) == 0,
{
    lemma_zero_count_from(1);
}

proof fn lemma_zero_count_from(lo: u16)
    requires
        1 <= lo <= 10,
    ensures
        count_from(0u16, lo) == 0,
    decreases 10 - lo,
{
    if lo <= 9 {
        assert(0u16 & digit_bit(lo) == 0) by (bit_vector)
            requires
                1 <= lo <= 9,
        ;
        lemma_zero_count_from((lo + 1) as u16);
    }
}

/// A digit's singleton mask has exactly one candidate.
pub proof fn lemma_digit_bit_count(d: u16)
    requires
        1 <= d <= 9,
    ensures
        mask_count(digit_bit(d)) == 1,
        first_digit(digit_bit(d)) == d,
{
    lemma_digit_bit_basics(d);
    lemma_count_remove(digit_bit(d), d);
    assert(digit_bit(d) & !digit_bit(d) == 0) by (bit_vector);
    lemma_zero_mask_count();
    lemma_first_digit(digit_bit(d));
    if first_digit(digit_bit(d)) != d {
        lemma_digit_bit_other(d, first_digit(digit_bit(d)));
    }
}

/// A mask whose only possible member is `d` is included in `d`'s singleton.
pub proof fn lemma_no_other_digits(m: u16, d: u16)
    requires
        m < 512,
        1 <= d <= 9,
        forall|e: u16| 1 <= e <= 9 && e != d ==> !mask_has(m, e),
    ensures
        submask(m, digit_bit(d)),
{
    assert(submask(m, digit_bit(d))) by (bit_vector)
        requires
            m < 512,
            1 <= d <= 9,
            d != 1 ==> !mask_has(m, 1),
            d != 2 ==> !mask_has(m, 2),
            d != 3 ==> !mask_has(m, 3),
            d != 4 ==> !mask_has(m, 4),
            d != 5 ==> !mask_has(m, 5),
            d != 6 ==> !mask_has(m, 6),
            d != 7 ==> !mask_has(m, 7),
            d != 8 ==> !mask_has(m, 8),
            d != 9 ==> !mask_has(m, 9),
    ;
}

/// A proper subset loses at least one candidate.
pub proof fn lemma_count_strict(a: u16, b: u16)
    requires
        submask(a, b),
        a != b,
        a < 512,
        b < 512,
    ensures
        mask_count(a) < mask_count(b),
{
    let diff = (b & !a) as u16;
    assert(diff != 0 && diff < 512) by (bit_vector)
        requires
            diff == (b & !a) as u16,
            a & !b == 0,
            a != b,
            b < 512,
    ;
    lemma_first_digit(diff);
    let d = first_digit(diff);
    assert(mask_has(b, d) && !mask_has(a, d)) by (bit_vector)
        requires
            diff == (b & !a) as u16,
            diff & digit_bit(d) != 0,
            1 <= d <= 9,
    ;
    assert(submask(a, (b & !digit_bit(d)) as u16)) by (bit_vector)
        requires
            a & !b == 0,
            a & digit_bit(d) == 0,
    ;
    lemma_count_from_submask(a, (b & !digit_bit(d)) as u16, 1);
    lemma_count_remove(b, d);
}

/// Membership of digit `d` in mask `m`.
pub fn mask_contains(m: u16, d: u16) -> (b: bool)
    requires
        1 <= d <= 9,
    ensures
        b == mask_has(m, d),
{
    m & (1u16 << (d - 1)) != 0
}

/// The number of candidates in `m`.
pub fn mask_size(m: u16) -> (n: u16)
    ensures
        n as int == mask_count(m),
{
    let mut n: u16 = 0;
    let mut d: u16 = 1;
    while d <= 9
        invariant
            1 <= d <= 10,
            n as int + count_from(m, d) == mask_count(m),
            n <= 9,
        decreases 10 - d,
    {
        proof {
            lemma_count_from_bounds(m, d);
            lemma_count_from_bounds(m, (d + 1) as u16);
            lemma_count_from_bounds(m, 1);
        }
        if mask_contains(m, d) {
            n = n + 1;
        }
        d = d + 1;
    }
    n
}

/// The least digit of a nonempty well-formed mask.
pub fn mask_min_digit(m: u16) -> (d: u16)
    requires
        m != 0,
        m < 512,
    ensures
        d == first_digit(m),
        1 <= d <= 9,
        mask_has(m, d),
{
    let mut e: u16 = 1;
    while e < 9 && !mask_contains(m, e)
        invariant
            1 <= e <= 9,
            forall|k: u16| 1 <= k < e ==> !mask_has(m, k),
        decreases 9 - e,
    {
        e = e + 1;
    }
    if !mask_contains(m, e) {
        proof {
            assert(false) by (bit_vector)
                requires
                    m != 0,
                    m < 512,
                    !mask_has(m, 1),
                    !mask_has(m, 2),
                    !mask_has(m, 3),
                    !mask_has(m, 4),
                    !mask_has(m, 5),
                    !mask_has(m, 6),
                    !mask_has(m, 7),
                    !mask_has(m, 8),
                    !mask_has(m, 9),
            ;
        }
    }
    proof {
        lemma_first_digit_is(m, e);
    }
    e
}

/// The singleton mask of digit `d`.
pub fn digit_mask(d: u16) -> (m: u16)
    requires
        1 <= d <= 9,
    ensures
        m == digit_bit(d),
{
    1u16 << (d - 1)
}

} // verus!
