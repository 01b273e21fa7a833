//! The fixed structure of the 9x9 board.
//!
//! Squares are indexed 0..81 in row-major order. The 27 units are numbered
//! columns first (0..9), then rows (9..18), then the nine 3x3 boxes (18..27),
//! matching the construction order of the classical solver. Two squares are
//! peers when they share a unit and differ.

use vstd::prelude::*;
use vstd::arithmetic::div_mod::lemma_fundamental_div_mod;
use vstd::arithmetic::div_mod::lemma_fundamental_div_mod_converse;
use vstd::arithmetic::div_mod::lemma_mod_bound;
use crate::text::push_char;

verus! {

/// The letter naming row `r` in square names.
pub open spec fn row_char(r: int) -> char {
    if r == 0 {
        'A'
    } else if r == 1 {
        'B'
    } else if r == 2 {
        'C'
    } else if r == 3 {
        'D'
    } else if r == 4 {
        'E'
    } else if r == 5 {
        'F'
    } else if r == 6 {
        'G'
    } else if r == 7 {
        'H'
    } else {
        'I'
    }
}

/// The digit naming column `c` (column names count from one).
pub open spec fn col_char(c: int) -> char {
    if c == 0 {
        '1'
    } else if c == 1 {
        '2'
    } else if c == 2 {
        '3'
    } else if c == 3 {
        '4'
    } else if c == 4 {
        '5'
    } else if c == 5 {
        '6'
    } else if c == 6 {
        '7'
    } else if c == 7 {
        '8'
    } else {
        '9'
    }
}

/// The conventional two-character name of square `s`: row letter, column digit.
pub open spec fn square_name(s: int) -> Seq<char> {
    seq![row_char(sq_row(s)), col_char(sq_col(s))]
}

/// The row (0..9) of square `s`.
pub open spec fn sq_row(s: int) -> int {
    s / 9
}

/// The column (0..9) of square `s`.
pub open spec fn sq_col(s: int) -> int {
    s % 9
}

/// The 3x3 box (0..9) of square `s`.
pub open spec fn sq_box(s: int) -> int {
    (sq_row(s) / 3) * 3 + sq_col(s) / 3
}

/// The `k`-th square of unit `u`.
pub open spec fn unit_member(u: int, k: int) -> int {
    if u < 9 {
        k * 9 + u
    } else if u < 18 {
        (u - 9) * 9 + k
    } else {
        (((u - 18) / 3) * 3 + k / 3) * 9 + ((u - 18) % 3) * 3 + k % 3
    }
}

/// Whether square `s` belongs to unit `u`.
pub open spec fn in_unit(s: int, u: int) -> bool {
    if u < 9 {
        sq_col(s) == u
    } else if u < 18 {
        sq_row(s) == u - 9
    } else {
        sq_box(s) == u - 18
    }
}

/// Whether two squares share a row, column or box.
pub open spec fn same_unit(s: int, t: int) -> bool {
    sq_row(s) == sq_row(t) || sq_col(s) == sq_col(t) || sq_box(s) == sq_box(t)
}

/// Whether `t` is a peer of `s`.
pub open spec fn is_peer(s: int, t: int) -> bool {
    0 <= s < 81 && 0 <= t < 81 && s != t && same_unit(s, t)
}

/// Row, column and box of a valid square are in range.
pub proof fn lemma_sq_parts_range(s: int)
    requires
        0 <= s < 81,
    ensures
        0 <= sq_row(s) < 9,
        0 <= sq_col(s) < 9,
        0 <= sq_box(s) < 9,
{
    lemma_fundamental_div_mod(s, 9);
    lemma_mod_bound(s, 9);
}

/// A square is rebuilt from its row and column.
pub proof fn lemma_sq_recompose(s: int)
    requires
        0 <= s < 81,
    ensures
        s == sq_row(s) * 9 + sq_col(s),
{
    lemma_fundamental_div_mod(s, 9);
}

/// The square with row `r` and column `c` has those coordinates.
pub proof fn lemma_sq_coords(r: int, c: int)
    requires
        0 <= r < 9,
        0 <= c < 9,
    ensures
        sq_row(r * 9 + c) == r,
        sq_col(r * 9 + c) == c,
        0 <= r * 9 + c < 81,
{
    lemma_fundamental_div_mod_converse(r * 9 + c, 9, r, c);
}

/// Members of a unit are valid squares that lie in it.
pub proof fn lemma_unit_member_in(u: int, k: int)
    requires
        0 <= u < 27,
        0 <= k < 9,
    ensures
        0 <= unit_member(u, k) < 81,
        in_unit(unit_member(u, k), u),
{
    if u < 9 {
        lemma_sq_coords(k, u);
    } else if u < 18 {
        lemma_sq_coords(u - 9, k);
    } else {
        let b = u - 18;
        lemma_fundamental_div_mod(b, 3);
        lemma_mod_bound(b, 3);
        lemma_fundamental_div_mod(k, 3);
        lemma_mod_bound(k, 3);
        let r = (b / 3) * 3 + k / 3;
        let c = (b % 3) * 3 + k % 3;
        lemma_sq_coords(r, c);
        lemma_fundamental_div_mod_converse(r, 3, b / 3, k / 3);
        lemma_fundamental_div_mod_converse(c, 3, b % 3, k % 3);
    }
}

/// The position of square `s` inside unit `u`.
pub open spec fn unit_index_of(u: int, s: int) -> int {
    if u < 9 {
        sq_row(s)
    } else if u < 18 {
        sq_col(s)
    } else {
        (sq_row(s) % 3) * 3 + sq_col(s) % 3
    }
}

/// Every square of a unit is one of its nine members.
pub proof fn lemma_in_unit_member(s: int, u: int)
    requires
        0 <= s < 81,
        0 <= u < 27,
        in_unit(s, u),
    ensures
        0 <= unit_index_of(u, s) < 9,
        unit_member(u, unit_index_of(u, s)) == s,
{
    lemma_sq_parts_range(s);
    lemma_sq_recompose(s);
    let r = sq_row(s);
    let c = sq_col(s);
    lemma_fundamental_div_mod(r, 3);
    lemma_mod_bound(r, 3);
    lemma_fundamental_div_mod(c, 3);
    lemma_mod_bound(c, 3);
    if u >= 18 {
        let k = (r % 3) * 3 + c % 3;
        lemma_fundamental_div_mod_converse(k, 3, r % 3, c % 3);
        let b = u - 18;
        lemma_fundamental_div_mod_converse(b, 3, r / 3, c / 3);
    }
}

/// A unit through a square is its column, its row, or its box.
pub proof fn lemma_in_unit_cases(s: int, u: int)
    requires
        0 <= s < 81,
        0 <= u < 27,
        in_unit(s, u),
    ensures
        u == sq_col(s) || u == 9 + sq_row(s) || u == 18 + sq_box(s),
{
}

/// Squares that share a row, column or box share a whole unit.
pub proof fn lemma_same_unit_common(s: int, t: int)
    requires
        0 <= s < 81,
        0 <= t < 81,
        same_unit(s, t),
    ensures
        exists|u: int| 0 <= u < 27 && in_unit(s, u) && in_unit(t, u),
{
    lemma_sq_parts_range(s);
    lemma_sq_parts_range(t);
    if sq_col(s) == sq_col(t) {
        assert(in_unit(s, sq_col(s)) && in_unit(t, sq_col(s)));
    } else if sq_row(s) == sq_row(t) {
        assert(in_unit(s, 9 + sq_row(s)) && in_unit(t, 9 + sq_row(s)));
    } else {
        assert(in_unit(s, 18 + sq_box(s)) && in_unit(t, 18 + sq_box(s)));
    }
}

/// The row of square `s`.
pub fn square_row(s: usize) -> (r: usize)
    requires
        s < 81,
    ensures
        r as int == sq_row(s as int),
{
    s / 9
}

/// The column of square `s`.
pub fn square_col(s: usize) -> (c: usize)
    requires
        s < 81,
    ensures
        c as int == sq_col(s as int),
{
    s % 9
}

/// The box of square `s`.
pub fn square_box(s: usize) -> (b: usize)
    requires
        s < 81,
    ensures
        b as int == sq_box(s as int),
{
    (s / 9 / 3) * 3 + (s % 9) / 3
}

/// Whether two squares share a row, column or box.
pub fn squares_share_unit(s: usize, t: usize) -> (b: bool)
    requires
        s < 81,
        t < 81,
    ensures
        b == same_unit(s as int, t as int),
{
    square_row(s) == square_row(t) || square_col(s) == square_col(t) || square_box(s)
        == square_box(t)
}

/// All two-character names combining one of `rows` with one of `cols`, in
/// row-major order.
pub fn cross(rows: &[char], cols: &[char]) -> (v: Vec<String>)
    ensures
        v@.len() == rows@.len() * cols@.len(),
        forall|n: int|
            0 <= n < v@.len() ==> #[trigger] v@[n]@ =~= seq![
                rows@[n / cols@.len() as int],
                cols@[n % cols@.len() as int],
            ],
{
    let rn = rows.len();
    let cn = cols.len();
    let mut v: Vec<String> = Vec::new();
    let mut i: usize = 0;
    while i < rn
        invariant
            rn == rows@.len(),
            cn == cols@.len(),
            i <= rn,
            v@.len() == i * cn,
            forall|n: int|
                0 <= n < v@.len() ==> #[trigger] v@[n]@ =~= seq![
                    rows@[n / cn as int],
                    cols@[n % cn as int],
                ],
        decreases rn - i,
    {
        let mut j: usize = 0;
        while j < cn
            invariant
                rn == rows@.len(),
                cn == cols@.len(),
                i < rn,
                j <= cn,
                v@.len() == i * cn + j,
                forall|n: int|
                    0 <= n < v@.len() ==> #[trigger] v@[n]@ =~= seq![
                        rows@[n / cn as int],
                        cols@[n % cn as int],
                    ],
            decreases cn - j,
        {
            let mut name = String::new();
            push_char(&mut name, rows[i]);
            push_char(&mut name, cols[j]);
            proof {
                lemma_fundamental_div_mod_converse(
                    i as int * cn as int + j as int,
                    cn as int,
                    i as int,
                    j as int,
                );
            }
            v.push(name);
            j += 1;
        }
        proof {
            assert((i + 1) * cn == i * cn + cn) by (nonlinear_arith);
        }
        i += 1;
    }
    v
}

/// The classical building blocks of the board: the column digits, the row
/// letters, the 81 square names in row-major order, and the 27 units
/// (columns, then rows, then boxes), each as nine square names.
pub fn legos() -> (parts: (Vec<char>, Vec<char>, Vec<String>, Vec<Vec<String>>))
    ensures
        parts.0@.len() == 9,
        forall|c: int| 0 <= c < 9 ==> #[trigger] parts.0@[c] == col_char(c),
        parts.1@.len() == 9,
        forall|r: int| 0 <= r < 9 ==> #[trigger] parts.1@[r] == row_char(r),
        parts.2@.len() == 81,
        forall|n: int| 0 <= n < 81 ==> #[trigger] parts.2@[n]@ =~= square_name(n),
        parts.3@.len() == 27,
        forall|u: int| 0 <= u < 27 ==> #[trigger] parts.3@[u]@.len() == 9,
        forall|u: int, k: int|
            #![trigger parts.3@[u]@[k]]
            0 <= u < 27 && 0 <= k < 9 ==> parts.3@[u]@[k]@ =~= square_name(unit_member(u, k)),
{
    let mut cols: Vec<char> = Vec::new();
    cols.push('1');
    cols.push('2');
    cols.push('3');
    cols.push('4');
    cols.push('5');
    cols.push('6');
    cols.push('7');
    cols.push('8');
    cols.push('9');
    let mut rows: Vec<char> = Vec::new();
    rows.push('A');
    rows.push('B');
    rows.push('C');
    rows.push('D');
    rows.push('E');
    rows.push('F');
    rows.push('G');
    rows.push('H');
    rows.push('I');
    proof {
        assert(cols@ =~= seq!['1', '2', '3', '4', '5', '6', '7', '8', '9']);
        assert(rows@ =~= seq!['A', 'B', 'C', 'D', 'E', 'F', 'G', 'H', 'I']);
        assert forall|c: int| 0 <= c < 9 implies #[trigger] cols@[c] == col_char(c) by {
            assert(cols@[0] == '1' && cols@[1] == '2' && cols@[2] == '3' && cols@[3] == '4'
                && cols@[4] == '5' && cols@[5] == '6' && cols@[6] == '7' && cols@[7] == '8'
                && cols@[8] == '9');
        }
        assert forall|r: int| 0 <= r < 9 implies #[trigger] rows@[r] == row_char(r) by {
            assert(rows@[0] == 'A' && rows@[1] == 'B' && rows@[2] == 'C' && rows@[3] == 'D'
                && rows@[4] == 'E' && rows@[5] == 'F' && rows@[6] == 'G' && rows@[7] == 'H'
                && rows@[8] == 'I');
        }
    }
    let squares = cross(rows.as_slice(), cols.as_slice());
    proof {
        assert(squares@.len() == 81);
        assert forall|n: int| 0 <= n < 81 implies #[trigger] squares@[n]@ =~= square_name(n) by {
            lemma_sq_parts_range(n);
            assert(squares@[n]@ =~= seq![rows@[n / 9], cols@[n % 9]]);
        }
    }
    let mut unitlist: Vec<Vec<String>> = Vec::new();
    let mut d: usize = 0;
    while d < 9
        invariant
            cols@.len() == 9,
            forall|c: int| 0 <= c < 9 ==> #[trigger] cols@[c] == col_char(c),
            rows@.len() == 9,
            forall|r: int| 0 <= r < 9 ==> #[trigger] rows@[r] == row_char(r),
            d <= 9,
            unitlist@.len() == d,
            forall|u: int| 0 <= u < d ==> #[trigger] unitlist@[u]@.len() == 9,
            forall|u: int, k: int|
                #![trigger unitlist@[u]@[k]]
                0 <= u < d && 0 <= k < 9 ==> unitlist@[u]@[k]@ =~= square_name(unit_member(u, k)),
        decreases 9 - d,
    {
        let mut one: Vec<char> = Vec::new();
        one.push(cols[d]);
        let unit = cross(rows.as_slice(), one.as_slice());
        proof {
            assert forall|k: int| 0 <= k < 9 implies #[trigger] unit@[k]@ =~= square_name(
                unit_member(d as int, k),
            ) by {
                lemma_sq_coords(k, d as int);
            }
        }
        unitlist.push(unit);
        d += 1;
    }
    let mut r: usize = 0;
    while r < 9
        invariant
            cols@.len() == 9,
            forall|c: int| 0 <= c < 9 ==> #[trigger] cols@[c] == col_char(c),
            rows@.len() == 9,
            forall|rr: int| 0 <= rr < 9 ==> #[trigger] rows@[rr] == row_char(rr),
            r <= 9,
            unitlist@.len() == 9 + r,
            forall|u: int| 0 <= u < 9 + r ==> #[trigger] unitlist@[u]@.len() == 9,
            forall|u: int, k: int|
                #![trigger unitlist@[u]@[k]]
                0 <= u < 9 + r && 0 <= k < 9 ==> unitlist@[u]@[k]@ =~= square_name(
                    unit_member(u, k),
                ),
        decreases 9 - r,
    {
        let mut one: Vec<char> = Vec::new();
        one.push(rows[r]);
        let unit = cross(one.as_slice(), cols.as_slice());
        proof {
            assert forall|k: int| 0 <= k < 9 implies #[trigger] unit@[k]@ =~= square_name(
                unit_member(9 + r as int, k),
            ) by {
                lemma_sq_coords(r as int, k);
            }
        }
        unitlist.push(unit);
        r += 1;
    }
    let mut br: usize = 0;
    while br < 3
        invariant
            cols@.len() == 9,
            forall|c: int| 0 <= c < 9 ==> #[trigger] cols@[c] == col_char(c),
            rows@.len() == 9,
            forall|rr: int| 0 <= rr < 9 ==> #[trigger] rows@[rr] == row_char(rr),
            br <= 3,
            unitlist@.len() == 18 + 3 * br,
            forall|u: int| 0 <= u < 18 + 3 * br ==> #[trigger] unitlist@[u]@.len() == 9,
            forall|u: int, k: int|
                #![trigger unitlist@[u]@[k]]
                0 <= u < 18 + 3 * br && 0 <= k < 9 ==> unitlist@[u]@[k]@ =~= square_name(
                    unit_member(u, k),
                ),
        decreases 3 - br,
    {
        let mut bc: usize = 0;
        while bc < 3
            invariant
                cols@.len() == 9,
                forall|c: int| 0 <= c < 9 ==> #[trigger] cols@[c] == col_char(c),
                rows@.len() == 9,
                forall|rr: int| 0 <= rr < 9 ==> #[trigger] rows@[rr] == row_char(rr),
                br < 3,
                bc <= 3,
                unitlist@.len() == 18 + 3 * br + bc,
                forall|u: int| 0 <= u < 18 + 3 * br + bc ==> #[trigger] unitlist@[u]@.len() == 9,
                forall|u: int, k: int|
                    #![trigger unitlist@[u]@[k]]
                    0 <= u < 18 + 3 * br + bc && 0 <= k < 9 ==> unitlist@[u]@[k]@ =~= square_name(
                        unit_member(u, k),
                    ),
            decreases 3 - bc,
        {
            let mut r3: Vec<char> = Vec::new();
            r3.push(rows[3 * br]);
            r3.push(rows[3 * br + 1]);
            r3.push(rows[3 * br + 2]);
            let mut c3: Vec<char> = Vec::new();
            c3.push(cols[3 * bc]);
            c3.push(cols[3 * bc + 1]);
            c3.push(cols[3 * bc + 2]);
            let unit = cross(r3.as_slice(), c3.as_slice());
            proof {
                let b = 3 * br as int + bc as int;
                lemma_fundamental_div_mod_converse(b, 3, br as int, bc as int);
                assert(r3@.len() == 3 && c3@.len() == 3);
                assert(r3@.len() * c3@.len() == 9) by (nonlinear_arith)
                    requires
                        r3@.len() == 3,
                        c3@.len() == 3,
                ;
                assert(unit@.len() == 9);
                assert forall|k: int| 0 <= k < 9 implies #[trigger] unit@[k]@ =~= square_name(
                    unit_member(18 + b, k),
                ) by {
                    lemma_fundamental_div_mod(k, 3);
                    lemma_mod_bound(k, 3);
                    let kd = k / 3;
                    let km = k % 3;
                    assert(0 <= kd < 3 && 0 <= km < 3);
                    assert(r3@[0] == rows@[3 * br] && r3@[1] == rows@[3 * br + 1] && r3@[2]
                        == rows@[3 * br + 2]);
                    assert(c3@[0] == cols@[3 * bc] && c3@[1] == cols@[3 * bc + 1] && c3@[2]
                        == cols@[3 * bc + 2]);
                    assert(r3@[kd] == rows@[3 * br + kd]);
                    assert(c3@[km] == cols@[3 * bc + km]);
                    assert(unit@[k]@ =~= seq![r3@[kd], c3@[km]]);
                    lemma_sq_coords(3 * (br as int) + kd, 3 * (bc as int) + km);
                    assert(unit_member(18 + b, k) == (3 * (br as int) + kd) * 9 + 3 * (bc as int)
                        + km);
                }
            }
            unitlist.push(unit);
            bc += 1;
        }
        br += 1;
    }
    (cols, rows, squares, unitlist)
}

/// The `k`-th square of unit `u`.
pub fn nth_unit_member(u: usize, k: usize) -> (s: usize)
    requires
        u < 27,
        k < 9,
    ensures
        s as int == unit_member(u as int, k as int),
        s < 81,
{
    proof {
        lemma_unit_member_in(u as int, k as int);
    }
    if u < 9 {
        k * 9 + u
    } else if u < 18 {
        (u - 9) * 9 + k
    } else {
        (((u - 18) / 3) * 3 + k / 3) * 9 + ((u - 18) % 3) * 3 + k % 3
    }
}

} // verus!
