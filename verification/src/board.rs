//! The solver's working state and its mathematical model.
//!
//! A grid state is a vector of 81 candidate masks. This module defines the
//! character filtering of raw input, well-formedness of states, full
//! assignments and what it means for one to solve the board, and the total
//! candidate count that bounds the propagation recursion.

use vstd::prelude::*;
use crate::masks::{
    digit_bit, first_digit, lemma_count_from_bounds, lemma_count_strict, lemma_count_submask,
    lemma_digit_bit_other, lemma_first_digit, lemma_singleton_mask, lemma_submask_refl,
    lemma_submask_trans, lemma_zero_mask_count, lemma_zero_mask_has, mask_count, mask_has,
    submask,
};
use crate::topology::{
    in_unit, is_peer, lemma_in_unit_member, lemma_same_unit_common, lemma_unit_member_in,
    unit_index_of, unit_member,
};
use vstd::string::StrSliceExecFns;

verus! {

/// The characters that carry meaning in a grid description.
pub open spec fn recognized(c: char) -> bool {
    ('0' <= c && c <= '9') || c == '.'
}

/// The characters that give a square's digit (as opposed to marking a blank).
pub open spec fn is_given(c: char) -> bool {
    '1' <= c && c <= '9'
}

/// The digit named by a given character.
pub open spec fn char_digit(c: char) -> u16 {
    (c as u32 - 48) as u16
}

/// The character naming a digit.
pub open spec fn digit_char(d: u16) -> char {
    (48 + d as u32) as char
}

/// The input with everything but recognized characters removed.
pub open spec fn filter_grid(s: Seq<char>) -> Seq<char>
    decreases s.len(),
{
    if s.len() == 0 {
        Seq::empty()
    } else {
        let rest = filter_grid(s.drop_last());
        if recognized(s.last()) {
            rest.push(s.last())
        } else {
            rest
        }
    }
}

/// Filtering distributes over concatenation.
pub proof fn lemma_filter_concat(a: Seq<char>, b: Seq<char>)
    ensures
        filter_grid(a + b) == filter_grid(a) + filter_grid(b),
    decreases b.len(),
{
    if b.len() == 0 {
        assert(a + b =~= a);
        assert(filter_grid(a) + Seq::<char>::empty() =~= filter_grid(a));
    } else {
        lemma_filter_concat(a, b.drop_last());
        assert((a + b).drop_last() =~= a + b.drop_last());
        assert((a + b).last() == b.last());
        if recognized(b.last()) {
            assert(filter_grid(a) + filter_grid(b) =~= (filter_grid(a) + filter_grid(
                b.drop_last(),
            )).push(b.last()));
        }
    }
}

/// A stretch of unrecognized characters filters to nothing.
pub proof fn lemma_filter_ignored(s: Seq<char>)
    requires
        forall|i: int| 0 <= i < s.len() ==> !recognized(s[i]),
    ensures
        filter_grid(s) == Seq::<char>::empty(),
    decreases s.len(),
{
    if s.len() > 0 {
        lemma_filter_ignored(s.drop_last());
    }
}

/// Filtering is idempotent.
pub proof fn lemma_filter_idempotent(s: Seq<char>)
    ensures
        filter_grid(filter_grid(s)) == filter_grid(s),
    decreases s.len(),
{
    if s.len() == 0 {
    } else {
        lemma_filter_idempotent(s.drop_last());
        if recognized(s.last()) {
            let f = filter_grid(s.drop_last());
            assert(filter_grid(s) == f.push(s.last()));
            assert(f.push(s.last()).drop_last() =~= f);
            assert(f.push(s.last()).last() == s.last());
            assert(filter_grid(f.push(s.last())) == filter_grid(f).push(s.last()));
        }
    }
}

/// A grid state: 81 masks, each holding only the nine digit bits.
pub open spec fn board_wf(v: Seq<u16>) -> bool {
    v.len() == 81 && forall|i: int| 0 <= i < 81 ==> v[i] < 512
}

/// No square's candidate set is empty.
pub open spec fn board_pos(v: Seq<u16>) -> bool {
    forall|i: int| 0 <= i < 81 ==> v[i] != 0
}

/// Every candidate set of `v1` is included in the matching set of `v2`.
pub open spec fn shrunk(v1: Seq<u16>, v2: Seq<u16>) -> bool {
    v1.len() == 81 && v2.len() == 81 && forall|i: int|
        0 <= i < 81 ==> submask(v1[i], v2[i])
}

pub proof fn lemma_shrunk_refl(v: Seq<u16>)
    requires
        v.len() == 81,
    ensures
        shrunk(v, v),
{
    assert forall|i: int| 0 <= i < 81 implies submask(v[i], v[i]) by {
        lemma_submask_refl(v[i]);
    }
}

pub proof fn lemma_shrunk_trans(v1: Seq<u16>, v2: Seq<u16>, v3: Seq<u16>)
    requires
        shrunk(v1, v2),
        shrunk(v2, v3),
    ensures
        shrunk(v1, v3),
{
    assert forall|i: int| 0 <= i < 81 implies submask(v1[i], v3[i]) by {
        lemma_submask_trans(v1[i], v2[i], v3[i]);
    }
}

/// The total number of candidates over all squares.
pub open spec fn total(v: Seq<u16>) -> int
    decreases v.len(),
{
    if v.len() == 0 {
        0
    } else {
        total(v.drop_last()) + mask_count(v.last())
    }
}

pub proof fn lemma_total_update(v: Seq<u16>, i: int, m: u16)
    requires
        0 <= i < v.len(),
    ensures
        total(v.update(i, m)) == total(v) - mask_count(v[i]) + mask_count(m),
    decreases v.len(),
{
    let w = v.update(i, m);
    if i == v.len() - 1 {
        assert(w.drop_last() =~= v.drop_last());
    } else {
        assert(w.drop_last() =~= v.drop_last().update(i, m));
        assert(w.last() == v.last());
        lemma_total_update(v.drop_last(), i, m);
    }
}

proof fn lemma_total_pointwise(v1: Seq<u16>, v2: Seq<u16>)
    requires
        v1.len() == v2.len(),
        forall|i: int| 0 <= i < v1.len() ==> mask_count(v1[i]) <= mask_count(v2[i]),
    ensures
        total(v1) <= total(v2),
    decreases v1.len(),
{
    if v1.len() > 0 {
        lemma_total_pointwise(v1.drop_last(), v2.drop_last());
    }
}

/// Shrinking the candidate sets only lowers the total.
pub proof fn lemma_total_shrunk(v1: Seq<u16>, v2: Seq<u16>)
    requires
        shrunk(v1, v2),
    ensures
        total(v1) <= total(v2),
{
    assert forall|i: int| 0 <= i < 81 implies mask_count(v1[i]) <= mask_count(v2[i]) by {
        lemma_count_submask(v1[i], v2[i]);
    }
    lemma_total_pointwise(v1, v2);
}

proof fn lemma_total_pointwise_strict(v1: Seq<u16>, v2: Seq<u16>, j: int)
    requires
        v1.len() == v2.len(),
        0 <= j < v1.len(),
        forall|i: int| 0 <= i < v1.len() ==> mask_count(v1[i]) <= mask_count(v2[i]),
        mask_count(v1[j]) < mask_count(v2[j]),
    ensures
        total(v1) < total(v2),
    decreases v1.len(),
{
    if j == v1.len() - 1 {
        lemma_total_pointwise(v1.drop_last(), v2.drop_last());
    } else {
        lemma_total_pointwise_strict(v1.drop_last(), v2.drop_last(), j);
    }
}

/// Shrinking with one square strictly smaller lowers the total strictly.
pub proof fn lemma_total_strict(v1: Seq<u16>, v2: Seq<u16>, j: int)
    requires
        shrunk(v1, v2),
        0 <= j < 81,
        board_wf(v1),
        board_wf(v2),
        v1[j] != v2[j],
    ensures
        total(v1) < total(v2),
{
    assert forall|i: int| 0 <= i < 81 implies mask_count(v1[i]) <= mask_count(v2[i]) by {
        lemma_count_submask(v1[i], v2[i]);
    }
    lemma_count_strict(v1[j], v2[j]);
    lemma_total_pointwise_strict(v1, v2, j);
}

pub proof fn lemma_total_nonneg(v: Seq<u16>)
    ensures
        total(v) >= 0,
    decreases v.len(),
{
    if v.len() > 0 {
        lemma_total_nonneg(v.drop_last());
        lemma_count_from_bounds(v.last(), 1);
    }
}

/// A full assignment: one digit for every square.
pub open spec fn full_assignment(a: Seq<u16>) -> bool {
    a.len() == 81 && forall|i: int| 0 <= i < 81 ==> 1 <= #[trigger] a[i] <= 9
}

/// Every square's digit is still among its candidates.
pub open spec fn consistent(a: Seq<u16>, v: Seq<u16>) -> bool {
    full_assignment(a) && v.len() == 81 && forall|i: int|
        0 <= i < 81 ==> mask_has(v[i], a[i])
}

/// How often digit `d` appears in unit `u` from position `k` on.
pub open spec fn occ_from(a: Seq<u16>, u: int, d: u16, k: int) -> int
    decreases 9 - k,
{
    if k >= 9 || k < 0 {
        0
    } else {
        (if a[unit_member(u, k)] == d {
            1int
        } else {
            0int
        }) + occ_from(a, u, d, k + 1)
    }
}

/// How often digit `d` appears in unit `u`.
pub open spec fn unit_occurrences(a: Seq<u16>, u: int, d: u16) -> int {
    occ_from(a, u, d, 0)
}

/// A full assignment that places every digit exactly once in every unit.
pub open spec fn valid_solution(a: Seq<u16>) -> bool {
    full_assignment(a) && forall|u: int, d: u16|
        0 <= u < 27 && 1 <= d <= 9 ==> #[trigger] unit_occurrences(a, u, d) == 1
}

pub proof fn lemma_occ_from_bounds(a: Seq<u16>, u: int, d: u16, k: int)
    ensures
        0 <= occ_from(a, u, d, k),
        occ_from(a, u, d, k) <= (if 0 <= k <= 9 {
            9 - k
        } else {
            0int
        }),
    decreases 9 - k,
{
    if 0 <= k < 9 {
        lemma_occ_from_bounds(a, u, d, k + 1);
    }
}

proof fn lemma_occ_from_hit(a: Seq<u16>, u: int, d: u16, k: int, j: int)
    requires
        0 <= k <= j < 9,
        a[unit_member(u, j)] == d,
    ensures
        occ_from(a, u, d, k) >= 1,
    decreases 9 - k,
{
    lemma_occ_from_bounds(a, u, d, k + 1);
    if k < j {
        lemma_occ_from_hit(a, u, d, k + 1, j);
    }
}

proof fn lemma_occ_from_two(a: Seq<u16>, u: int, d: u16, k: int, j1: int, j2: int)
    requires
        0 <= k <= j1 < j2 < 9,
        a[unit_member(u, j1)] == d,
        a[unit_member(u, j2)] == d,
    ensures
        occ_from(a, u, d, k) >= 2,
    decreases 9 - k,
{
    if k < j1 {
        lemma_occ_from_two(a, u, d, k + 1, j1, j2);
    } else {
        lemma_occ_from_hit(a, u, d, k + 1, j2);
    }
}

proof fn lemma_occ_from_witness(a: Seq<u16>, u: int, d: u16, k: int)
    requires
        0 <= k <= 9,
        occ_from(a, u, d, k) >= 1,
    ensures
        exists|j: int| k <= j < 9 && a[unit_member(u, j)] == d,
    decreases 9 - k,
{
    if k < 9 {
        if a[unit_member(u, k)] == d {
        } else {
            lemma_occ_from_witness(a, u, d, k + 1);
        }
    }
}

/// In a valid solution every unit holds every digit somewhere.
pub proof fn lemma_valid_unit_has(a: Seq<u16>, u: int, d: u16)
    requires
        valid_solution(a),
        0 <= u < 27,
        1 <= d <= 9,
    ensures
        exists|j: int| 0 <= j < 9 && a[unit_member(u, j)] == d,
{
    assert(unit_occurrences(a, u, d) == 1);
    lemma_occ_from_witness(a, u, d, 0);
}

/// In a valid solution peers never carry the same digit.
pub proof fn lemma_valid_distinct(a: Seq<u16>, s: int, t: int)
    requires
        valid_solution(a),
        is_peer(s, t),
    ensures
        a[s] != a[t],
{
    lemma_same_unit_common(s, t);
    let u = choose|u: int| 0 <= u < 27 && in_unit(s, u) && in_unit(t, u);
    lemma_in_unit_member(s, u);
    lemma_in_unit_member(t, u);
    let k1 = unit_index_of(u, s);
    let k2 = unit_index_of(u, t);
    if a[s] == a[t] {
        let d = a[s];
        assert(1 <= d <= 9);
        assert(unit_occurrences(a, u, d) == 1);
        assert(k1 != k2);
        if k1 < k2 {
            lemma_occ_from_two(a, u, d, 0, k1, k2);
        } else {
            lemma_occ_from_two(a, u, d, 0, k2, k1);
        }
    }
}

/// Every square settled to a single candidate.
pub open spec fn all_singleton(v: Seq<u16>) -> bool {
    forall|i: int| 0 <= i < 81 ==> mask_count(v[i]) == 1
}

/// The digits of a fully settled state.
pub open spec fn board_digits(v: Seq<u16>) -> Seq<u16> {
    Seq::new(81, |i: int| first_digit(v[i]))
}

/// The given digits of a filtered 81-character grid, as constraints.
pub open spec fn matches_givens(a: Seq<u16>, g: Seq<char>) -> bool {
    forall|i: int| 0 <= i < 81 && is_given(#[trigger] g[i]) ==> a[i] == char_digit(g[i])
}

/// Whether some valid solution completes the given grid.
pub open spec fn solvable(g: Seq<char>) -> bool {
    exists|a: Seq<u16>| valid_solution(a) && #[trigger] matches_givens(a, g)
}

/// The digits named by a sequence of given characters.
pub open spec fn grid_digits(t: Seq<char>) -> Seq<u16> {
    Seq::new(t.len(), |i: int| char_digit(t[i]))
}

/// A digit's character is a given that names that digit back.
pub proof fn lemma_digit_char(d: u16)
    requires
        1 <= d <= 9,
    ensures
        is_given(digit_char(d)),
        recognized(digit_char(d)),
        char_digit(digit_char(d)) == d,
{
}

/// A given character's digit is in range and names the character back.
pub proof fn lemma_char_digit(c: char)
    requires
        is_given(c),
    ensures
        1 <= char_digit(c) <= 9,
        digit_char(char_digit(c)) == c,
        recognized(c),
{
}

/// Digit `d` still has a possible home somewhere in unit `u`.
pub open spec fn home_ok(v: Seq<u16>, u: int, d: u16) -> bool {
    exists|k: int| 0 <= k < 9 && #[trigger] mask_has(v[unit_member(u, k)], d)
}

/// Every digit keeps a home in every unit, except the pairs in `x`, which a
/// propagation step in flight still owes a check.
pub open spec fn homes_except(v: Seq<u16>, x: Set<(int, u16)>) -> bool {
    forall|u: int, d: u16|
        0 <= u < 27 && 1 <= d <= 9 && !x.contains((u, d)) ==> #[trigger] home_ok(v, u, d)
}

/// The occurrences in unit `u` of all digits `d..=9`, counted from position
/// `k` on, summed.
spec fn occ_sum(a: Seq<u16>, u: int, d: u16, k: int) -> int
    decreases 10 - d,
{
    if d > 9 {
        0
    } else {
        occ_from(a, u, d, k) + occ_sum(a, u, (d + 1) as u16, k)
    }
}

proof fn lemma_occ_sum_step(a: Seq<u16>, u: int, d: u16, k: int)
    requires
        0 <= k < 9,
    ensures
        occ_sum(a, u, d, k) == (if d <= a[unit_member(u, k)] <= 9 {
            1int
        } else {
            0int
        }) + occ_sum(a, u, d, k + 1),
    decreases 10 - d,
{
    if d <= 9 {
        lemma_occ_sum_step(a, u, (d + 1) as u16, k);
    }
}

proof fn lemma_occ_sum_end(a: Seq<u16>, u: int, d: u16)
    ensures
        occ_sum(a, u, d, 9) == 0,
    decreases 10 - d,
{
    if d <= 9 {
        lemma_occ_sum_end(a, u, (d + 1) as u16);
    }
}

proof fn lemma_occ_sum_total(a: Seq<u16>, u: int, k: int)
    requires
        full_assignment(a),
        0 <= u < 27,
        0 <= k <= 9,
    ensures
        occ_sum(a, u, 1, k) == 9 - k,
    decreases 9 - k,
{
    if k == 9 {
        lemma_occ_sum_end(a, u, 1);
    } else {
        lemma_occ_sum_step(a, u, 1, k);
        lemma_unit_member_in(u, k);
        lemma_occ_sum_total(a, u, k + 1);
    }
}

proof fn lemma_occ_sum_min(a: Seq<u16>, u: int, d: u16)
    requires
        1 <= d <= 10,
        forall|e: u16| d <= e <= 9 ==> #[trigger] unit_occurrences(a, u, e) >= 1,
    ensures
        occ_sum(a, u, d, 0) >= 10 - d,
    decreases 10 - d,
{
    if d <= 9 {
        lemma_occ_sum_min(a, u, (d + 1) as u16);
        assert(unit_occurrences(a, u, d) >= 1);
        assert(occ_sum(a, u, d, 0) == occ_from(a, u, d, 0) + occ_sum(a, u, (d + 1) as u16, 0));
    }
}

proof fn lemma_occ_sum_min_plus(a: Seq<u16>, u: int, d: u16, d0: u16)
    requires
        1 <= d <= d0 <= 9,
        forall|e: u16| d <= e <= 9 ==> #[trigger] unit_occurrences(a, u, e) >= 1,
    ensures
        occ_sum(a, u, d, 0) >= (10 - d) + unit_occurrences(a, u, d0) - 1,
    decreases 10 - d,
{
    assert(occ_sum(a, u, d, 0) == occ_from(a, u, d, 0) + occ_sum(a, u, (d + 1) as u16, 0));
    if d == d0 {
        lemma_occ_sum_min(a, u, (d + 1) as u16);
    } else {
        lemma_occ_sum_min_plus(a, u, (d + 1) as u16, d0);
        assert(unit_occurrences(a, u, d) >= 1);
    }
}

proof fn lemma_home_occ(v: Seq<u16>, u: int, d: u16)
    requires
        board_wf(v),
        all_singleton(v),
        0 <= u < 27,
        1 <= d <= 9,
        home_ok(v, u, d),
    ensures
        unit_occurrences(board_digits(v), u, d) >= 1,
{
    let a = board_digits(v);
    let k = choose|k: int| 0 <= k < 9 && #[trigger] mask_has(v[unit_member(u, k)], d);
    lemma_unit_member_in(u, k);
    let m = v[unit_member(u, k)];
    assert(m != 0) by {
        lemma_zero_mask_has(d);
    }
    assert(mask_count(m) == 1);
    lemma_singleton_mask(m);
    lemma_first_digit(m);
    if first_digit(m) != d {
        lemma_digit_bit_other(first_digit(m), d);
    }
    assert(a[unit_member(u, k)] == d);
    lemma_occ_from_hit(a, u, d, 0, k);
}

/// A fully settled state in which every digit keeps a home in every unit is
/// a valid solution: each unit has nine cells, all nine digits appear, so
/// each appears exactly once.
pub proof fn lemma_settled_valid(v: Seq<u16>)
    requires
        board_wf(v),
        all_singleton(v),
        homes_except(v, Set::empty()),
    ensures
        valid_solution(board_digits(v)),
{
    let a = board_digits(v);
    assert forall|i: int| 0 <= i < 81 implies 1 <= #[trigger] a[i] <= 9 by {
        assert(mask_count(v[i]) == 1);
        if v[i] == 0 {
            lemma_zero_mask_count();
        }
        lemma_first_digit(v[i]);
    }
    assert(full_assignment(a));
    assert forall|u: int, d: u16|
        0 <= u < 27 && 1 <= d <= 9 implies #[trigger] unit_occurrences(a, u, d) == 1 by {
        assert forall|e: u16| 1 <= e <= 9 implies #[trigger] unit_occurrences(a, u, e) >= 1 by {
            assert(home_ok(v, u, e));
            lemma_home_occ(v, u, e);
        }
        if unit_occurrences(a, u, d) >= 2 {
            lemma_occ_sum_min_plus(a, u, 1, d);
            lemma_occ_sum_total(a, u, 0);
        }
        lemma_occ_from_bounds(a, u, d, 0);
    }
}

/// Collect the recognized characters of the input.
pub fn filter_chars(grid: &str) -> (out: Vec<char>)
    ensures
        out@ == filter_grid(grid@),
{
    let n = grid.unicode_len();
    let mut out: Vec<char> = Vec::new();
    let mut i: usize = 0;
    while i < n
        invariant
            n == grid@.len(),
            i <= n,
            out@ == filter_grid(grid@.take(i as int)),
        decreases n - i,
    {
        let c = grid.get_char(i);
        proof {
            assert(grid@.take(i + 1).drop_last() =~= grid@.take(i as int));
            assert(grid@.take(i + 1).last() == grid@[i as int]);
        }
        if ('0' <= c && c <= '9') || c == '.' {
            out.push(c);
        }
        i = i + 1;
    }
    proof {
        assert(grid@.take(n as int) =~= grid@);
    }
    out
}

} // verus!
