//! The solving engine: topology tables, constraint propagation, search.
//!
//! A `Sudoku` value holds the read-only topology tables built once at
//! startup: the members of the 27 units, each square's peers, and the three
//! units through each square. All solving happens on a separate grid state
//! (a vector of 81 candidate masks) so one engine can serve many requests.

use vstd::prelude::*;
use crate::masks::{
    digit_bit, digit_mask, first_digit, lemma_count_agree, lemma_count_remove, lemma_count_zero,
    lemma_digit_bit_basics, lemma_digit_bit_count, lemma_digit_bit_other, lemma_first_digit,
    lemma_no_other_digits, lemma_remove_effect, lemma_singleton_mask, lemma_submask_has,
    lemma_submask_refl, lemma_submask_singleton, lemma_submask_trans, lemma_zero_mask_count,
    lemma_zero_mask_has, mask_contains, mask_count, mask_has, mask_min_digit, mask_size, submask,
    FULL_MASK,
};
use crate::board::{
    all_singleton, board_digits, board_pos, board_wf, char_digit, consistent, digit_char,
    filter_chars, filter_grid, grid_digits, home_ok, homes_except, is_given, lemma_char_digit,
    lemma_digit_char, lemma_settled_valid, lemma_shrunk_refl, lemma_shrunk_trans,
    lemma_total_nonneg, lemma_total_shrunk, lemma_total_strict, lemma_total_update,
    lemma_valid_distinct, lemma_valid_unit_has, matches_givens, occ_from, shrunk, solvable,
    total, unit_occurrences, valid_solution,
};
use crate::text::push_char;
use vstd::string::StringExecFns;
use crate::topology::{
    is_peer, lemma_in_unit_cases, lemma_sq_parts_range, lemma_unit_member_in, nth_unit_member,
    sq_box, sq_col, sq_row, square_box, square_col, square_row, squares_share_unit, unit_member,
};

verus! {

/// Why a request could not be served.
#[derive(Debug, PartialEq, Eq, Structural, Clone, Copy)]
pub enum PuzzleError {
    /// The input did not filter to exactly 81 recognized characters.
    InvalidGrid,
    /// Propagation or search proved the puzzle unsatisfiable.
    Contradiction,
    /// The search's outcome failed final validation.
    Unsolved,
}

impl PuzzleError {
    /// The human-readable message reported to callers.
    pub fn message(&self) -> (m: String)
        ensures
            *self == PuzzleError::InvalidGrid ==> m@
                == "Invalid Grid.  Provide a string of 81 digits with 0 or . for empties."@,
            *self == PuzzleError::Contradiction ==> m@
                == "A contradiction occured. The puzzle is unsolvable."@,
            *self == PuzzleError::Unsolved ==> m@ == "The puzzle is unsolvable."@,
    {
        match self {
            PuzzleError::InvalidGrid => String::from_str(
                "Invalid Grid.  Provide a string of 81 digits with 0 or . for empties.",
            ),
            PuzzleError::Contradiction => String::from_str(
                "A contradiction occured. The puzzle is unsolvable.",
            ),
            PuzzleError::Unsolved => String::from_str("The puzzle is unsolvable."),
        }
    }
}

/// The body of a solve or display request: the raw grid description.
pub struct SudokuRequest {
    /// The 81-cell puzzle text, blanks written `0` or `.`.
    pub puzzle: String,
}

/// The immutable topology of the board, built once by [`Sudoku::new`].
pub struct Sudoku {
    units: Vec<Vec<usize>>,
    peers: Vec<Vec<usize>>,
    sq_units: Vec<Vec<usize>>,
}

/// Eliminating `d` from square `s` keeps every valid solution of the old
/// state whose digit at `s` is not `d`, and succeeds whenever one exists.
pub open spec fn elim_preserves(pre: Seq<u16>, post: Seq<u16>, s: int, d: u16, r: bool) -> bool {
    forall|a: Seq<u16>|
        #[trigger] consistent(a, pre) && valid_solution(a) && a[s] != d ==> r && consistent(
            a,
            post,
        )
}

/// Assigning `d` to square `s` keeps every valid solution of the old state
/// whose digit at `s` is `d`, and succeeds whenever one exists.
pub open spec fn assign_preserves(pre: Seq<u16>, post: Seq<u16>, s: int, d: u16, r: bool) -> bool {
    forall|a: Seq<u16>|
        #[trigger] consistent(a, pre) && valid_solution(a) && a[s] == d ==> r && consistent(
            a,
            post,
        )
}

/// The `j`-th (0..3) unit through square `s`: its column, row, box.
pub open spec fn unit_of_square(s: int, j: int) -> int {
    if j == 0 {
        sq_col(s)
    } else if j == 1 {
        9 + sq_row(s)
    } else {
        18 + sq_box(s)
    }
}

/// The home checks a removal of `d` at `s` still owes: digit `d` in the
/// units of `s` from position `i` on.
pub open spec fn pending_units(s: int, d: u16, i: int) -> Set<(int, u16)> {
    Set::new(|p: (int, u16)| exists|j: int| i <= j < 3 && p == (unit_of_square(s, j), d))
}

impl Sudoku {
    /// The topology tables list exactly the units, true peers, and per-square
    /// unit indexes that the board structure defines.
    pub closed spec fn wf(&self) -> bool {
        &&& self.units@.len() == 27
        &&& forall|u: int| 0 <= u < 27 ==> #[trigger] self.units@[u]@.len() == 9
        &&& forall|u: int, k: int|
            #![trigger self.units@[u]@[k]]
            0 <= u < 27 && 0 <= k < 9 ==> self.units@[u]@[k] as int == unit_member(u, k)
                && self.units@[u]@[k] < 81
        &&& self.peers@.len() == 81
        &&& forall|s: int, k: int|
            #![trigger self.peers@[s]@[k]]
            0 <= s < 81 && 0 <= k < self.peers@[s]@.len() ==> is_peer(s, self.peers@[s]@[k] as int)
        &&& forall|s: int, t: int|
            is_peer(s, t) ==> exists|k: int|
                0 <= k < self.peers@[s]@.len() && #[trigger] self.peers@[s]@[k] as int == t
        &&& self.sq_units@.len() == 81
        &&& forall|s: int| 0 <= s < 81 ==> #[trigger] self.sq_units@[s]@.len() == 3
        &&& forall|s: int|
            #![trigger self.sq_units@[s]]
            0 <= s < 81 ==> self.sq_units@[s]@[0] as int == sq_col(s)
                && self.sq_units@[s]@[1] as int == 9 + sq_row(s) && self.sq_units@[s]@[2] as int
                == 18 + sq_box(s)
        &&& forall|s: int, k: int|
            #![trigger self.sq_units@[s]@[k]]
            0 <= s < 81 && 0 <= k < 3 ==> self.sq_units@[s]@[k] < 27
    }

    /// Build the topology tables: unit members, peers, units per square.
    pub fn new() -> (engine: Sudoku)
        ensures
            engine.wf(),
    {
        let mut units: Vec<Vec<usize>> = Vec::new();
        for u in 0..27usize
            invariant
                units@.len() == u,
                forall|uu: int| 0 <= uu < u ==> #[trigger] units@[uu]@.len() == 9,
                forall|uu: int, k: int|
                    #![trigger units@[uu]@[k]]
                    0 <= uu < u && 0 <= k < 9 ==> units@[uu]@[k] as int == unit_member(uu, k)
                        && units@[uu]@[k] < 81,
        {
            let mut mem: Vec<usize> = Vec::new();
            for k in 0..9usize
                invariant
                    u < 27,
                    mem@.len() == k,
                    forall|j: int|
                        #![trigger mem@[j]]
                        0 <= j < k ==> mem@[j] as int == unit_member(u as int, j) && mem@[j] < 81,
            {
                mem.push(nth_unit_member(u, k));
            }
            units.push(mem);
        }
        let mut peers: Vec<Vec<usize>> = Vec::new();
        for s in 0..81usize
            invariant
                peers@.len() == s,
                forall|ss: int, k: int|
                    #![trigger peers@[ss]@[k]]
                    0 <= ss < s && 0 <= k < peers@[ss]@.len() ==> is_peer(
                        ss,
                        peers@[ss]@[k] as int,
                    ),
                forall|ss: int, t: int|
                    0 <= ss < s && is_peer(ss, t) ==> exists|k: int|
                        0 <= k < peers@[ss]@.len() && #[trigger] peers@[ss]@[k] as int == t,
        {
            let mut p: Vec<usize> = Vec::new();
            for t in 0..81usize
                invariant
                    s < 81,
                    forall|k: int|
                        #![trigger p@[k]]
                        0 <= k < p@.len() ==> is_peer(s as int, p@[k] as int),
                    forall|tt: int|
                        0 <= tt < t && is_peer(s as int, tt) ==> exists|k: int|
                            0 <= k < p@.len() && #[trigger] p@[k] as int == tt,
            {
                let ghost p0 = p@;
                let shares = t != s && squares_share_unit(s, t);
                if shares {
                    p.push(t);
                }
                proof {
                    assert forall|tt: int|
                        0 <= tt < t + 1 && is_peer(s as int, tt) implies exists|k: int|
                        0 <= k < p@.len() && #[trigger] p@[k] as int == tt by {
                        if tt < t as int {
                            let k0 = choose|k: int|
                                0 <= k < p0.len() && #[trigger] p0[k] as int == tt;
                            assert(p@[k0] as int == tt);
                        } else {
                            assert(shares);
                            assert(p@[p@.len() - 1] as int == tt);
                        }
                    }
                }
            }
            let ghost pv = p@;
            let ghost peers0 = peers@;
            peers.push(p);
            proof {
                assert forall|ss: int, t2: int|
                    0 <= ss < s + 1 && is_peer(ss, t2) implies exists|k: int|
                    0 <= k < peers@[ss]@.len() && #[trigger] peers@[ss]@[k] as int == t2 by {
                    if ss == s as int {
                        let k0 = choose|k: int|
                            0 <= k < pv.len() && #[trigger] pv[k] as int == t2;
                        assert(peers@[ss]@ == pv);
                        assert(peers@[ss]@[k0] as int == t2);
                    } else {
                        let k0 = choose|k: int|
                            0 <= k < peers0[ss]@.len() && #[trigger] peers0[ss]@[k] as int == t2;
                        assert(peers@[ss]@ == peers0[ss]@);
                        assert(peers@[ss]@[k0] as int == t2);
                    }
                }
            }
        }
        let mut sq_units: Vec<Vec<usize>> = Vec::new();
        for s in 0..81usize
            invariant
                sq_units@.len() == s,
                forall|ss: int| 0 <= ss < s ==> #[trigger] sq_units@[ss]@.len() == 3,
                forall|ss: int|
                    #![trigger sq_units@[ss]]
                    0 <= ss < s ==> sq_units@[ss]@[0] as int == sq_col(ss)
                        && sq_units@[ss]@[1] as int == 9 + sq_row(ss)
                        && sq_units@[ss]@[2] as int == 18 + sq_box(ss),
                forall|ss: int, k: int|
                    #![trigger sq_units@[ss]@[k]]
                    0 <= ss < s && 0 <= k < 3 ==> sq_units@[ss]@[k] < 27,
        {
            proof {
                lemma_sq_parts_range(s as int);
            }
            let mut su: Vec<usize> = Vec::new();
            su.push(square_col(s));
            su.push(9 + square_row(s));
            su.push(18 + square_box(s));
            proof {
                assert(su@[0] as int == sq_col(s as int) && su@[1] as int == 9 + sq_row(s as int)
                    && su@[2] as int == 18 + sq_box(s as int));
            }
            sq_units.push(su);
        }
        Sudoku { units, peers, sq_units }
    }

    /// The recursive eliminator. The ghost set `x` names the unit/digit
    /// pairs whose home check an enclosing removal still owes; every other
    /// pair's home survives a successful call, which is what makes a fully
    /// settled state a valid solution.
    fn eliminate_inner(&self, values: &mut Vec<u16>, s: usize, d: u16, Ghost(x): Ghost<Set<(int, u16)>>) -> (r: bool)
        requires
            self.wf(),
            board_wf(old(values)@),
            board_pos(old(values)@),
            homes_except(old(values)@, x),
            s < 81,
            1 <= d <= 9,
        ensures
            board_wf(final(values)@),
            shrunk(final(values)@, old(values)@),
            r ==> board_pos(final(values)@),
            r ==> homes_except(final(values)@, x),
            r ==> !mask_has(final(values)@[s as int], d),
            mask_has(old(values)@[s as int], d) ==> total(final(values)@) < total(old(values)@),
            !mask_has(old(values)@[s as int], d) ==> r && final(values)@ == old(values)@,
            elim_preserves(old(values)@, final(values)@, s as int, d, r),
        decreases total(old(values)@), 0int,
    {
        let ghost v0 = values@;
        let ghost own = pending_units(s as int, d, 0);
        let m = values[s];
        if !mask_contains(m, d) {
            proof {
                lemma_shrunk_refl(v0);
            }
            return true;
        }
        let bit = digit_mask(d);
        let m2 = m & !bit;
        values.set(s, m2);
        let ghost v1 = values@;
        proof {
            lemma_remove_effect(m, d, d);
            lemma_count_remove(m, d);
            lemma_total_update(v0, s as int, m2);
            assert forall|i: int| 0 <= i < 81 implies submask(v1[i], v0[i]) by {
                if i != s as int {
                    lemma_submask_refl(v0[i]);
                }
            }
            assert(shrunk(v1, v0));
            assert(total(v1) == total(v0) - 1);
            assert forall|a: Seq<u16>|
                #[trigger] consistent(a, v0) && valid_solution(a) && a[s as int]
                    != d implies consistent(a, v1) by {
                lemma_remove_effect(m, d, a[s as int]);
            }
            assert forall|uu: int, e: u16|
                0 <= uu < 27 && 1 <= e <= 9 && !x.union(own).contains(
                    (uu, e),
                ) implies #[trigger] home_ok(v1, uu, e) by {
                assert(home_ok(v0, uu, e));
                let k = choose|k: int| 0 <= k < 9 && #[trigger] mask_has(
                    v0[unit_member(uu, k)],
                    e,
                );
                lemma_unit_member_in(uu, k);
                if unit_member(uu, k) == s as int {
                    lemma_in_unit_cases(s as int, uu);
                    if uu == sq_col(s as int) {
                        assert((uu, d) == (unit_of_square(s as int, 0), d));
                    } else if uu == 9 + sq_row(s as int) {
                        assert((uu, d) == (unit_of_square(s as int, 1), d));
                    } else {
                        assert((uu, d) == (unit_of_square(s as int, 2), d));
                    }
                    assert(own.contains((uu, d)));
                    assert(e != d);
                    lemma_remove_effect(m, d, e);
                    assert(mask_has(v1[unit_member(uu, k)], e));
                } else {
                    assert(v1[unit_member(uu, k)] == v0[unit_member(uu, k)]);
                }
            }
            assert(homes_except(v1, x.union(own)));
        }
        if m2 == 0 {
            proof {
                assert forall|a: Seq<u16>|
                    #[trigger] consistent(a, v0) && valid_solution(a) && a[s as int]
                        != d implies false by {
                    assert(consistent(a, v1));
                    assert(mask_has(0u16, a[s as int]));
                    lemma_zero_mask_has(a[s as int]);
                }
            }
            return false;
        }
        proof {
            lemma_shrunk_refl(v1);
        }
        if mask_size(m2) == 1 {
            let d2 = mask_min_digit(m2);
            proof {
                lemma_singleton_mask(m2);
            }
            let plen = self.peers[s].len();
            let mut k: usize = 0;
            while k < plen
                invariant
                    self.wf(),
                    s < 81,
                    1 <= d <= 9,
                    1 <= d2 <= 9,
                    v0 == old(values)@,
                    mask_has(v0[s as int], d),
                    board_wf(v1),
                    shrunk(v1, v0),
                    total(v1) == total(v0) - 1,
                    !mask_has(v1[s as int], d),
                    plen == self.peers@[s as int]@.len(),
                    k <= plen,
                    board_wf(values@),
                    board_pos(values@),
                    shrunk(values@, v1),
                    total(values@) < total(v0),
                    values@[s as int] == digit_bit(d2),
                    own == pending_units(s as int, d, 0),
                    homes_except(values@, x.union(own)),
                    forall|a: Seq<u16>|
                        #[trigger] consistent(a, v0) && valid_solution(a) && a[s as int] != d
                            ==> consistent(a, v1),
                    forall|a: Seq<u16>|
                        #[trigger] consistent(a, v1) && valid_solution(a) ==> consistent(
                            a,
                            values@,
                        ),
                decreases plen - k,
            {
                let p = self.peers[s][k];
                let ghost vpre = values@;
                proof {
                    lemma_total_nonneg(values@);
                }
                let ok = self.eliminate_inner(values, p, d2, Ghost(x.union(own)));
                proof {
                    assert forall|a: Seq<u16>|
                        #[trigger] consistent(a, vpre) && valid_solution(a) implies a[p as int]
                        != d2 by {
                        assert(mask_has(vpre[s as int], a[s as int]));
                        if a[s as int] != d2 {
                            lemma_digit_bit_other(d2, a[s as int]);
                        }
                        lemma_valid_distinct(a, s as int, p as int);
                    }
                }
                if !ok {
                    proof {
                        assert forall|a: Seq<u16>|
                            #[trigger] consistent(a, v0) && valid_solution(a) && a[s as int]
                                != d implies false by {
                            assert(consistent(a, v1));
                            assert(consistent(a, vpre));
                            assert(a[p as int] != d2);
                        }
                        lemma_shrunk_trans(values@, vpre, v1);
                        lemma_shrunk_trans(values@, v1, v0);
                        lemma_total_shrunk(values@, vpre);
                        lemma_total_shrunk(vpre, v1);
                    }
                    return false;
                }
                proof {
                    lemma_shrunk_trans(values@, vpre, v1);
                    lemma_total_shrunk(values@, vpre);
                    lemma_total_shrunk(vpre, v1);
                    assert(submask(values@[s as int], vpre[s as int]));
                    lemma_submask_singleton(values@[s as int], d2);
                    assert forall|a: Seq<u16>|
                        #[trigger] consistent(a, v1) && valid_solution(a) implies consistent(
                        a,
                        values@,
                    ) by {
                        assert(consistent(a, vpre));
                        assert(a[p as int] != d2);
                    }
                }
                k += 1;
            }
        }
        proof {
            lemma_total_shrunk(values@, v1);
        }
        let mut ui: usize = 0;
        while ui < 3
            invariant
                self.wf(),
                s < 81,
                1 <= d <= 9,
                v0 == old(values)@,
                mask_has(v0[s as int], d),
                board_wf(v1),
                shrunk(v1, v0),
                !mask_has(v1[s as int], d),
                board_wf(values@),
                board_pos(values@),
                shrunk(values@, v1),
                total(values@) < total(v0),
                own == pending_units(s as int, d, 0),
                homes_except(values@, x.union(pending_units(s as int, d, ui as int))),
                forall|a: Seq<u16>|
                    #[trigger] consistent(a, v0) && valid_solution(a) && a[s as int] != d
                        ==> consistent(a, v1),
                forall|a: Seq<u16>|
                    #[trigger] consistent(a, v1) && valid_solution(a) ==> consistent(a, values@),
            decreases 3 - ui,
        {
            let u = self.sq_units[s][ui];
            proof {
                assert(self.sq_units@[s as int]@[0] as int == sq_col(s as int));
                assert(u as int == unit_of_square(s as int, ui as int));
            }
            let mut cnt: u16 = 0;
            let mut place: usize = 0;
            let mut k: usize = 0;
            while k < 9
                invariant
                    self.wf(),
                    u < 27,
                    1 <= d <= 9,
                    k <= 9,
                    cnt <= k,
                    board_wf(values@),
                    cnt >= 1 ==> place < 81 && mask_has(values@[place as int], d),
                    cnt >= 1 ==> exists|j: int|
                        0 <= j < 9 && #[trigger] mask_has(values@[unit_member(u as int, j)], d),
                    cnt == 0 ==> forall|j: int|
                        0 <= j < k ==> !mask_has(
                            values@[#[trigger] unit_member(u as int, j)],
                            d,
                        ),
                    cnt == 1 ==> forall|j: int|
                        0 <= j < k && mask_has(values@[#[trigger] unit_member(u as int, j)], d)
                            ==> unit_member(u as int, j) == place as int,
                decreases 9 - k,
            {
                let t = self.units[u][k];
                if mask_contains(values[t], d) {
                    cnt += 1;
                    place = t;
                }
                k += 1;
            }
            if cnt == 0 {
                proof {
                    assert forall|a: Seq<u16>|
                        #[trigger] consistent(a, v0) && valid_solution(a) && a[s as int]
                            != d implies false by {
                        assert(consistent(a, v1));
                        assert(consistent(a, values@));
                        lemma_valid_unit_has(a, u as int, d);
                        let j = choose|j: int| 0 <= j < 9 && a[unit_member(u as int, j)] == d;
                        lemma_unit_member_in(u as int, j);
                        assert(mask_has(values@[unit_member(u as int, j)], d));
                    }
                    lemma_shrunk_trans(values@, v1, v0);
                }
                return false;
            }
            proof {
                assert(home_ok(values@, u as int, d));
                assert forall|uu: int, e: u16|
                    0 <= uu < 27 && 1 <= e <= 9 && !x.union(
                        pending_units(s as int, d, ui as int + 1),
                    ).contains((uu, e)) implies #[trigger] home_ok(values@, uu, e) by {
                    if x.union(pending_units(s as int, d, ui as int)).contains((uu, e)) {
                        let j = choose|j: int|
                            ui as int <= j < 3 && (uu, e) == (unit_of_square(s as int, j), d);
                        if j > ui as int {
                            assert(pending_units(s as int, d, ui as int + 1).contains((uu, e)));
                        }
                        assert(j == ui as int);
                        assert(uu == u as int && e == d);
                    }
                }
                assert(homes_except(values@, x.union(pending_units(s as int, d, ui as int + 1))));
            }
            if cnt == 1 {
                let ghost vpre = values@;
                proof {
                    assert forall|a: Seq<u16>|
                        #[trigger] consistent(a, vpre) && valid_solution(a) implies a[place as int]
                        == d by {
                        lemma_valid_unit_has(a, u as int, d);
                        let j = choose|j: int| 0 <= j < 9 && a[unit_member(u as int, j)] == d;
                        lemma_unit_member_in(u as int, j);
                        assert(mask_has(vpre[unit_member(u as int, j)], d));
                        assert(unit_member(u as int, j) == place as int);
                    }
                }
                proof {
                    lemma_total_nonneg(values@);
                }
                let ok = self.assign_inner(
                    values,
                    place,
                    d,
                    Ghost(x.union(pending_units(s as int, d, ui as int + 1))),
                );
                if !ok {
                    proof {
                        assert forall|a: Seq<u16>|
                            #[trigger] consistent(a, v0) && valid_solution(a) && a[s as int]
                                != d implies false by {
                            assert(consistent(a, v1));
                            assert(consistent(a, vpre));
                            assert(a[place as int] == d);
                        }
                        lemma_shrunk_trans(values@, vpre, v1);
                        lemma_shrunk_trans(values@, v1, v0);
                        lemma_total_shrunk(values@, vpre);
                    }
                    return false;
                }
                proof {
                    lemma_shrunk_trans(values@, vpre, v1);
                    lemma_total_shrunk(values@, vpre);
                    assert forall|a: Seq<u16>|
                        #[trigger] consistent(a, v1) && valid_solution(a) implies consistent(
                        a,
                        values@,
                    ) by {
                        assert(consistent(a, vpre));
                        assert(a[place as int] == d);
                    }
                }
            }
            ui += 1;
        }
        proof {
            lemma_shrunk_trans(values@, v1, v0);
            if mask_has(values@[s as int], d) {
                lemma_submask_has(values@[s as int], v1[s as int], d);
                lemma_remove_effect(m, d, d);
            }
            assert forall|uu: int, e: u16|
                0 <= uu < 27 && 1 <= e <= 9 && !x.contains((uu, e)) implies #[trigger] home_ok(
                values@,
                uu,
                e,
            ) by {
                assert(!pending_units(s as int, d, 3).contains((uu, e)));
                assert(!x.union(pending_units(s as int, d, 3)).contains((uu, e)));
            }
        }
        true
    }

    /// The recursive assigner, with the same pending home checks `x` as
    /// [`Sudoku::eliminate_inner`].
    fn assign_inner(&self, values: &mut Vec<u16>, s: usize, d: u16, Ghost(x): Ghost<Set<(int, u16)>>) -> (r: bool)
        requires
            self.wf(),
            board_wf(old(values)@),
            board_pos(old(values)@),
            homes_except(old(values)@, x),
            s < 81,
            1 <= d <= 9,
        ensures
            board_wf(final(values)@),
            shrunk(final(values)@, old(values)@),
            r ==> board_pos(final(values)@),
            r ==> homes_except(final(values)@, x),
            r ==> final(values)@[s as int] == digit_bit(d),
            mask_count(old(values)@[s as int]) >= 2 ==> total(final(values)@) < total(
                old(values)@,
            ),
            assign_preserves(old(values)@, final(values)@, s as int, d, r),
        decreases total(old(values)@), 1int,
    {
        let ghost v0 = values@;
        proof {
            lemma_shrunk_refl(v0);
        }
        let mut dd: u16 = 1;
        while dd <= 9
            invariant
                self.wf(),
                s < 81,
                1 <= d <= 9,
                1 <= dd <= 10,
                v0 == old(values)@,
                board_wf(v0),
                board_wf(values@),
                board_pos(values@),
                homes_except(values@, x),
                shrunk(values@, v0),
                total(values@) <= total(v0),
                forall|e: u16| 1 <= e < dd && e != d ==> !mask_has(values@[s as int], e),
                (exists|e: u16| 1 <= e < dd && e != d && mask_has(v0[s as int], e)) ==> total(
                    values@,
                ) < total(v0),
                forall|a: Seq<u16>|
                    #[trigger] consistent(a, v0) && valid_solution(a) && a[s as int] == d
                        ==> consistent(a, values@),
            decreases 10 - dd,
        {
            if dd != d {
                let ghost vpre = values@;
                proof {
                    lemma_total_nonneg(values@);
                }
                let ok = self.eliminate_inner(values, s, dd, Ghost(x));
                if !ok {
                    proof {
                        assert forall|a: Seq<u16>|
                            #[trigger] consistent(a, v0) && valid_solution(a) && a[s as int]
                                == d implies false by {
                            assert(consistent(a, vpre));
                            assert(a[s as int] != dd);
                        }
                        lemma_shrunk_trans(values@, vpre, v0);
                        assert(mask_has(vpre[s as int], dd));
                        lemma_total_shrunk(vpre, v0);
                    }
                    return false;
                }
                proof {
                    lemma_shrunk_trans(values@, vpre, v0);
                    lemma_total_shrunk(values@, vpre);
                    assert forall|e: u16| 1 <= e < dd + 1 && e != d implies !mask_has(
                        values@[s as int],
                        e,
                    ) by {
                        if e < dd {
                            if mask_has(values@[s as int], e) {
                                lemma_submask_has(values@[s as int], vpre[s as int], e);
                            }
                        }
                    }
                    if mask_has(v0[s as int], dd) {
                        if mask_has(vpre[s as int], dd) {
                        } else {
                            lemma_total_strict(vpre, v0, s as int);
                        }
                        assert(total(values@) < total(v0));
                    }
                    assert forall|a: Seq<u16>|
                        #[trigger] consistent(a, v0) && valid_solution(a) && a[s as int]
                            == d implies consistent(a, values@) by {
                        assert(consistent(a, vpre));
                        assert(a[s as int] != dd);
                    }
                }
            }
            dd += 1;
        }
        proof {
            assert forall|e: u16| 1 <= e <= 9 && e != d implies !mask_has(values@[s as int], e) by {
            }
            lemma_no_other_digits(values@[s as int], d);
            lemma_submask_singleton(values@[s as int], d);
            if mask_count(v0[s as int]) >= 2 {
                let m0 = v0[s as int];
                let rest = (m0 & !digit_bit(d)) as u16;
                lemma_remove_effect(m0, d, d);
                if mask_has(m0, d) {
                    lemma_count_remove(m0, d);
                } else {
                    assert forall|e: u16| 1 <= e <= 9 implies mask_has(rest, e) == mask_has(
                        m0,
                        e,
                    ) by {
                        lemma_remove_effect(m0, d, e);
                    }
                    lemma_count_agree(rest, m0);
                }
                assert(mask_count(rest) >= 1);
                if rest == 0 {
                    lemma_zero_mask_count();
                }
                lemma_first_digit(rest);
                let e = first_digit(rest);
                lemma_remove_effect(m0, d, e);
                assert(mask_has(m0, e) && e != d);
                assert(exists|e2: u16| 1 <= e2 < 10 && e2 != d && mask_has(v0[s as int], e2));
            }
        }
        true
    }

    /// Remove digit `d` from square `s`'s candidates and propagate: a square
    /// settled to one candidate clears it from its peers, and a digit left a
    /// single home in a unit is assigned there. Returns `false` on
    /// contradiction; the state is then only good for discarding.
    pub fn eliminate(&self, values: &mut Vec<u16>, s: usize, d: u16) -> (r: bool)
        requires
            self.wf(),
            board_wf(old(values)@),
            board_pos(old(values)@),
            s < 81,
            1 <= d <= 9,
        ensures
            board_wf(final(values)@),
            shrunk(final(values)@, old(values)@),
            r ==> board_pos(final(values)@),
            r ==> !mask_has(final(values)@[s as int], d),
            mask_has(old(values)@[s as int], d) ==> total(final(values)@) < total(old(values)@),
            !mask_has(old(values)@[s as int], d) ==> r && final(values)@ == old(values)@,
            elim_preserves(old(values)@, final(values)@, s as int, d, r),
    {
        self.eliminate_inner(values, s, d, Ghost(Set::full()))
    }

    /// Commit digit `d` to square `s` by eliminating every other digit from
    /// its candidates, propagating each removal. Returns `false` on
    /// contradiction; the state is then only good for discarding.
    pub fn assign(&self, values: &mut Vec<u16>, s: usize, d: u16) -> (r: bool)
        requires
            self.wf(),
            board_wf(old(values)@),
            board_pos(old(values)@),
            s < 81,
            1 <= d <= 9,
        ensures
            board_wf(final(values)@),
            shrunk(final(values)@, old(values)@),
            r ==> board_pos(final(values)@),
            r ==> final(values)@[s as int] == digit_bit(d),
            mask_count(old(values)@[s as int]) >= 2 ==> total(final(values)@) < total(
                old(values)@,
            ),
            assign_preserves(old(values)@, final(values)@, s as int, d, r),
    {
        self.assign_inner(values, s, d, Ghost(Set::full()))
    }

    /// Depth-first search with propagation. Picks an unresolved square with
    /// the fewest candidates, tries its digits in increasing order on a
    /// cloned state, and returns the first fully settled state found.
    pub fn search(&self, values: Vec<u16>) -> (res: Result<Vec<u16>, PuzzleError>)
        requires
            self.wf(),
            board_wf(values@),
            board_pos(values@),
            homes_except(values@, Set::empty()),
        ensures
            res matches Ok(out) ==> board_wf(out@) && board_pos(out@) && all_singleton(out@)
                && shrunk(out@, values@),
            res matches Ok(out) ==> valid_solution(board_digits(out@)),
            res matches Err(e) ==> e == PuzzleError::Contradiction,
            all_singleton(values@) ==> (res matches Ok(out) && out@ == values@),
            (exists|a: Seq<u16>| valid_solution(a) && #[trigger] consistent(a, values@))
                ==> res is Ok,
        decreases total(values@),
    {
        let mut best: usize = 81;
        let mut best_size: u16 = 16;
        let mut s: usize = 0;
        while s < 81
            invariant
                board_wf(values@),
                board_pos(values@),
                s <= 81,
                best == 81 || (best < 81 && 2 <= best_size && best_size as int == mask_count(
                    values@[best as int],
                )),
                best == 81 ==> forall|j: int| 0 <= j < s ==> mask_count(#[trigger] values@[j])
                    == 1,
            decreases 81 - s,
        {
            let sz = mask_size(values[s]);
            proof {
                if sz == 0 {
                    lemma_count_zero(values@[s as int]);
                }
            }
            if sz > 1 && (best == 81 || sz < best_size) {
                best = s;
                best_size = sz;
            }
            s += 1;
        }
        if best == 81 {
            proof {
                lemma_shrunk_refl(values@);
                lemma_settled_valid(values@);
            }
            return Ok(values);
        }
        let sq = best;
        let ghost v0 = values@;
        let mut d: u16 = 1;
        while d <= 9
            invariant
                self.wf(),
                sq < 81,
                1 <= d <= 10,
                v0 == values@,
                board_wf(v0),
                board_pos(v0),
                homes_except(v0, Set::empty()),
                2 <= mask_count(v0[sq as int]),
                forall|a: Seq<u16>|
                    #[trigger] consistent(a, v0) && valid_solution(a) ==> a[sq as int] >= d,
            decreases 10 - d,
        {
            if mask_contains(values[sq], d) {
                let mut trial = copy_state(&values);
                let ok = self.assign_inner(&mut trial, sq, d, Ghost(Set::empty()));
                if ok {
                    proof {
                        lemma_total_nonneg(trial@);
                    }
                    match self.search(trial) {
                        Ok(sv) => {
                            proof {
                                lemma_shrunk_trans(sv@, trial@, v0);
                            }
                            return Ok(sv);
                        },
                        Err(_) => {
                            proof {
                                assert forall|a: Seq<u16>|
                                    #[trigger] consistent(a, v0) && valid_solution(
                                        a,
                                    ) implies a[sq as int] >= d + 1 by {
                                    if a[sq as int] == d {
                                        assert(consistent(a, trial@));
                                    }
                                }
                            }
                        },
                    }
                } else {
                    proof {
                        assert forall|a: Seq<u16>|
                            #[trigger] consistent(a, v0) && valid_solution(a) implies a[sq as int]
                            >= d + 1 by {
                            if a[sq as int] == d {
                                assert(false);
                            }
                        }
                    }
                }
            } else {
                proof {
                    assert forall|a: Seq<u16>|
                        #[trigger] consistent(a, v0) && valid_solution(a) implies a[sq as int] >= d
                        + 1 by {
                        assert(mask_has(v0[sq as int], a[sq as int]));
                    }
                }
            }
            d += 1;
        }
        proof {
            if exists|a: Seq<u16>| valid_solution(a) && #[trigger] consistent(a, v0) {
                let a = choose|a: Seq<u16>| valid_solution(a) && #[trigger] consistent(a, v0);
                assert(a[sq as int] >= 10);
                assert(1 <= a[sq as int] <= 9);
            }
        }
        Err(PuzzleError::Contradiction)
    }

    /// Filter the input to its recognized characters, demanding exactly 81.
    pub fn grid_values(&self, grid: &str) -> (res: Result<Vec<char>, PuzzleError>)
        ensures
            res matches Ok(g) ==> g@ == filter_grid(grid@) && g@.len() == 81,
            res is Err <==> filter_grid(grid@).len() != 81,
            res matches Err(e) ==> e == PuzzleError::InvalidGrid,
    {
        let g = filter_chars(grid);
        if g.len() == 81 {
            Ok(g)
        } else {
            Err(PuzzleError::InvalidGrid)
        }
    }

    /// Parse a grid description into a candidate state: every square starts
    /// with all nine digits, and each given digit is committed through
    /// [`Sudoku::assign`], propagating its consequences at once.
    pub fn parse_grid(&self, grid: &str) -> (res: Result<Vec<u16>, PuzzleError>)
        requires
            self.wf(),
        ensures
            res == Err::<Vec<u16>, PuzzleError>(PuzzleError::InvalidGrid) <==> filter_grid(
                grid@,
            ).len() != 81,
            res matches Err(e) ==> e == PuzzleError::InvalidGrid || e
                == PuzzleError::Contradiction,
            res matches Ok(v) ==> homes_except(v@, Set::empty()),
            res matches Ok(v) ==> board_wf(v@) && board_pos(v@) && forall|i: int|
                0 <= i < 81 && is_given(#[trigger] filter_grid(grid@)[i]) ==> v@[i] == digit_bit(
                    char_digit(filter_grid(grid@)[i]),
                ),
            res matches Ok(v) ==> forall|a: Seq<u16>|
                valid_solution(a) && #[trigger] matches_givens(a, filter_grid(grid@))
                    ==> consistent(a, v@),
            filter_grid(grid@).len() == 81 && solvable(filter_grid(grid@)) ==> res is Ok,
    {
        let g = match self.grid_values(grid) {
            Ok(g) => g,
            Err(e) => {
                return Err(e);
            },
        };
        let mut values: Vec<u16> = Vec::new();
        let mut j: usize = 0;
        while j < 81
            invariant
                values@.len() == j,
                j <= 81,
                forall|t: int| 0 <= t < j ==> #[trigger] values@[t] == FULL_MASK,
            decreases 81 - j,
        {
            values.push(FULL_MASK);
            j += 1;
        }
        proof {
            assert forall|a: Seq<u16>|
                valid_solution(a) && #[trigger] matches_givens(a, g@) implies consistent(
                a,
                values@,
            ) by {
                assert forall|t: int| 0 <= t < 81 implies mask_has(values@[t], a[t]) by {
                    lemma_digit_bit_basics(a[t]);
                }
            }
            assert forall|u: int, d: u16|
                0 <= u < 27 && 1 <= d <= 9 && !Set::<(int, u16)>::empty().contains(
                    (u, d),
                ) implies #[trigger] home_ok(values@, u, d) by {
                lemma_unit_member_in(u, 0);
                lemma_digit_bit_basics(d);
                assert(mask_has(values@[unit_member(u, 0)], d));
            }
        }
        let mut i: usize = 0;
        while i < 81
            invariant
                self.wf(),
                i <= 81,
                g@ == filter_grid(grid@),
                g@.len() == 81,
                board_wf(values@),
                board_pos(values@),
                homes_except(values@, Set::empty()),
                forall|t: int|
                    0 <= t < i && is_given(#[trigger] g@[t]) ==> values@[t] == digit_bit(
                        char_digit(g@[t]),
                    ),
                forall|a: Seq<u16>|
                    valid_solution(a) && #[trigger] matches_givens(a, g@) ==> consistent(
                        a,
                        values@,
                    ),
            decreases 81 - i,
        {
            let c = g[i];
            if '1' <= c && c <= '9' {
                let d: u16 = ((c as u32) - 48) as u16;
                proof {
                    lemma_char_digit(g@[i as int]);
                    assert(d == char_digit(g@[i as int]));
                }
                let ghost vpre = values@;
                let ok = self.assign_inner(&mut values, i, d, Ghost(Set::empty()));
                if !ok {
                    proof {
                        assert forall|a: Seq<u16>|
                            valid_solution(a) && #[trigger] matches_givens(a, g@) implies false by {
                            assert(consistent(a, vpre));
                            assert(a[i as int] == d);
                        }
                    }
                    return Err(PuzzleError::Contradiction);
                }
                proof {
                    assert forall|t: int|
                        0 <= t < i + 1 && is_given(#[trigger] g@[t]) implies values@[t]
                        == digit_bit(char_digit(g@[t])) by {
                        if t < i {
                            assert(submask(values@[t], vpre[t]));
                            lemma_submask_singleton(values@[t], char_digit(g@[t]));
                        }
                    }
                    assert forall|a: Seq<u16>|
                        valid_solution(a) && #[trigger] matches_givens(a, g@) implies consistent(
                        a,
                        values@,
                    ) by {
                        assert(consistent(a, vpre));
                        assert(a[i as int] == d);
                    }
                }
            }
            i += 1;
        }
        Ok(values)
    }

    /// Confirm a fully settled state is a legal solution: every square holds
    /// one candidate and every unit holds every digit exactly once.
    pub fn solved(&self, values: &Vec<u16>) -> (r: bool)
        requires
            self.wf(),
            board_wf(values@),
        ensures
            r == (all_singleton(values@) && valid_solution(board_digits(values@))),
    {
        let mut i: usize = 0;
        while i < 81
            invariant
                i <= 81,
                board_wf(values@),
                forall|t: int| 0 <= t < i ==> mask_count(#[trigger] values@[t]) == 1,
            decreases 81 - i,
        {
            if mask_size(values[i]) != 1 {
                return false;
            }
            i += 1;
        }
        let mut dig: Vec<u16> = Vec::new();
        let mut i: usize = 0;
        while i < 81
            invariant
                i <= 81,
                board_wf(values@),
                all_singleton(values@),
                dig@.len() == i,
                forall|t: int|
                    0 <= t < i ==> #[trigger] dig@[t] == first_digit(values@[t]) && 1 <= dig@[t]
                        <= 9,
            decreases 81 - i,
        {
            proof {
                if values@[i as int] == 0 {
                    lemma_zero_mask_count();
                }
            }
            dig.push(mask_min_digit(values[i]));
            i += 1;
        }
        let ghost a = dig@;
        proof {
            assert(a =~= board_digits(values@));
            assert(a == board_digits(values@));
        }
        let mut u: usize = 0;
        while u < 27
            invariant
                self.wf(),
                u <= 27,
                board_wf(values@),
                all_singleton(values@),
                dig@ == a,
                a == board_digits(values@),
                dig@.len() == 81,
                forall|t: int| 0 <= t < 81 ==> 1 <= #[trigger] a[t] <= 9,
                forall|uu: int, d: u16|
                    0 <= uu < u && 1 <= d <= 9 ==> #[trigger] unit_occurrences(a, uu, d) == 1,
            decreases 27 - u,
        {
            let mut d: u16 = 1;
            while d <= 9
                invariant
                    self.wf(),
                    u < 27,
                    1 <= d <= 10,
                    board_wf(values@),
                    all_singleton(values@),
                    dig@ == a,
                    a == board_digits(values@),
                    dig@.len() == 81,
                    forall|dd: u16|
                        1 <= dd < d ==> #[trigger] unit_occurrences(a, u as int, dd) == 1,
                decreases 10 - d,
            {
                let mut cnt: u16 = 0;
                let mut k: usize = 0;
                while k < 9
                    invariant
                        self.wf(),
                        u < 27,
                        1 <= d <= 9,
                        k <= 9,
                        cnt <= k,
                        board_wf(values@),
                        dig@ == a,
                        dig@.len() == 81,
                        cnt as int + occ_from(a, u as int, d, k as int) == unit_occurrences(
                            a,
                            u as int,
                            d,
                        ),
                    decreases 9 - k,
                {
                    let t = self.units[u][k];
                    if dig[t] == d {
                        cnt += 1;
                    }
                    k += 1;
                }
                if cnt != 1 {
                    return false;
                }
                d += 1;
            }
            u += 1;
        }
        true
    }

    /// Solve a grid description: parse, propagate, search, validate, and
    /// render the solved grid as its 81 digits in row-major order.
    pub fn solve(&self, grid: &str) -> (res: Result<String, PuzzleError>)
        requires
            self.wf(),
        ensures
            res == Err::<String, PuzzleError>(PuzzleError::InvalidGrid) <==> filter_grid(
                grid@,
            ).len() != 81,
            res matches Ok(out) ==> out@.len() == 81 && (forall|i: int|
                0 <= i < 81 ==> is_given(#[trigger] out@[i])) && valid_solution(
                grid_digits(out@),
            ) && (forall|i: int|
                0 <= i < 81 && is_given(#[trigger] filter_grid(grid@)[i]) ==> out@[i]
                    == filter_grid(grid@)[i]),
            filter_grid(grid@).len() == 81 && solvable(filter_grid(grid@)) ==> res is Ok,
            res != Err::<String, PuzzleError>(PuzzleError::Unsolved),
            filter_grid(grid@).len() == 81 && (forall|i: int|
                0 <= i < 81 ==> is_given(#[trigger] filter_grid(grid@)[i])) && valid_solution(
                grid_digits(filter_grid(grid@)),
            ) ==> (res matches Ok(out) && out@ == filter_grid(grid@)),
    {
        let ghost f = filter_grid(grid@);
        proof {
            if f.len() == 81 && (forall|i: int| 0 <= i < 81 ==> is_given(#[trigger] f[i]))
                && valid_solution(grid_digits(f)) {
                assert(matches_givens(grid_digits(f), f));
                assert(solvable(f));
            }
        }
        let values = match self.parse_grid(grid) {
            Ok(v) => v,
            Err(e) => {
                return Err(e);
            },
        };
        let ghost vparse = values@;
        proof {
            if f.len() == 81 && solvable(f) {
                let a = choose|a: Seq<u16>|
                    valid_solution(a) && #[trigger] matches_givens(a, f);
                assert(consistent(a, vparse));
            }
            if f.len() == 81 && (forall|i: int| 0 <= i < 81 ==> is_given(#[trigger] f[i]))
                && valid_solution(grid_digits(f)) {
                assert forall|t: int| 0 <= t < 81 implies mask_count(#[trigger] vparse[t])
                    == 1 by {
                    lemma_char_digit(f[t]);
                    lemma_digit_bit_count(char_digit(f[t]));
                }
            }
        }
        let sv = match self.search(values) {
            Ok(v) => v,
            Err(e) => {
                return Err(e);
            },
        };
        proof {
            if f.len() == 81 && (forall|i: int| 0 <= i < 81 ==> is_given(#[trigger] f[i]))
                && valid_solution(grid_digits(f)) {
                assert(sv@ == vparse);
                assert forall|t: int| 0 <= t < 81 implies #[trigger] board_digits(sv@)[t]
                    == grid_digits(f)[t] by {
                    lemma_char_digit(f[t]);
                    lemma_digit_bit_count(char_digit(f[t]));
                }
                assert(board_digits(sv@) =~= grid_digits(f));
            }
            assert forall|t: int|
                0 <= t < 81 && is_given(#[trigger] f[t]) implies sv@[t] == digit_bit(
                char_digit(f[t]),
            ) by {
                assert(submask(sv@[t], vparse[t]));
                lemma_char_digit(f[t]);
                lemma_submask_singleton(sv@[t], char_digit(f[t]));
            }
        }
        if !self.solved(&sv) {
            return Err(PuzzleError::Unsolved);
        }
        let ghost bd = board_digits(sv@);
        let mut out = String::new();
        let mut i: usize = 0;
        while i < 81
            invariant
                i <= 81,
                board_wf(sv@),
                board_pos(sv@),
                all_singleton(sv@),
                bd == board_digits(sv@),
                out@.len() == i,
                forall|t: int| 0 <= t < i ==> #[trigger] out@[t] == digit_char(bd[t]),
            decreases 81 - i,
        {
            proof {
                if sv@[i as int] == 0 {
                    lemma_zero_mask_count();
                }
                lemma_first_digit(sv@[i as int]);
            }
            let d = mask_min_digit(sv[i]);
            let ch = (48u8 + d as u8) as char;
            proof {
                assert(ch == digit_char(d));
            }
            push_char(&mut out, ch);
            i += 1;
        }
        proof {
            assert forall|t: int| 0 <= t < 81 implies is_given(#[trigger] out@[t]) by {
                lemma_digit_char(bd[t]);
            }
            assert forall|t: int| 0 <= t < 81 implies #[trigger] grid_digits(out@)[t]
                == bd[t] by {
                lemma_digit_char(bd[t]);
            }
            assert(grid_digits(out@) =~= bd);
            assert forall|t: int|
                0 <= t < 81 && is_given(#[trigger] f[t]) implies out@[t] == f[t] by {
                lemma_char_digit(f[t]);
                lemma_digit_bit_count(char_digit(f[t]));
            }
            if f.len() == 81 && (forall|i2: int| 0 <= i2 < 81 ==> is_given(#[trigger] f[i2]))
                && valid_solution(grid_digits(f)) {
                assert(out@ =~= f);
            }
        }
        Ok(out)
    }
}

/// An independent copy of a grid state, taken at each search branch so that
/// sibling branches never observe each other's eliminations.
fn copy_state(v: &Vec<u16>) -> (out: Vec<u16>)
    ensures
        out@ == v@,
{
    let mut out: Vec<u16> = Vec::new();
    let mut i: usize = 0;
    while i < v.len()
        invariant
            i <= v@.len(),
            out@ == v@.take(i as int),
        decreases v@.len() - i,
    {
        out.push(v[i]);
        proof {
            assert(v@.take(i + 1) =~= v@.take(i as int).push(v@[i as int]));
        }
        i += 1;
    }
    proof {
        assert(v@.take(v@.len() as int) =~= v@);
    }
    out
}

} // verus!
