//! Relations between the library's operations, stated and proved once.

use vstd::prelude::*;
use crate::board::{
    char_digit, filter_grid, grid_digits, is_given, lemma_filter_concat, lemma_filter_ignored,
    lemma_valid_distinct, matches_givens, recognized, solvable, valid_solution,
};
use crate::topology::same_unit;

verus! {

/// Inserting only unrecognized characters anywhere in an input leaves the
/// filtered grid unchanged, so `solve` and `display` — whose contracts speak
/// only of the filtered grid — see the same puzzle either way.
pub proof fn lemma_filter_insert_ignored(a: Seq<char>, j: Seq<char>, b: Seq<char>)
    requires
        forall|i: int| 0 <= i < j.len() ==> !recognized(j[i]),
    ensures
        filter_grid(a + j + b) == filter_grid(a + b),
{
    lemma_filter_concat(a, j);
    lemma_filter_concat(a + j, b);
    lemma_filter_concat(a, b);
    lemma_filter_ignored(j);
    assert(filter_grid(a) + Seq::<char>::empty() =~= filter_grid(a));
}

/// Two given digits that conflict — same row, column or box, same value —
/// leave no valid solution; an 81-character grid with such a pair therefore
/// solves to a contradiction, never to a completed board.
pub proof fn lemma_conflict_unsolvable(g: Seq<char>, s: int, t: int)
    requires
        g.len() == 81,
        0 <= s < 81,
        0 <= t < 81,
        s != t,
        same_unit(s, t),
        is_given(g[s]),
        is_given(g[t]),
        g[s] == g[t],
    ensures
        !solvable(g),
{
    if solvable(g) {
        let a = choose|a: Seq<u16>| valid_solution(a) && #[trigger] matches_givens(a, g);
        assert(a[s] == char_digit(g[s]));
        assert(a[t] == char_digit(g[t]));
        lemma_valid_distinct(a, s, t);
    }
}

/// A valid solved grid that keeps every given digit witnesses that the
/// puzzle was solvable: what `solve` returns on success proves its input
/// had a solution.
pub proof fn lemma_solution_witness(g: Seq<char>, out: Seq<char>)
    requires
        g.len() == 81,
        out.len() == 81,
        valid_solution(grid_digits(out)),
        forall|i: int| 0 <= i < 81 && is_given(#[trigger] g[i]) ==> out[i] == g[i],
    ensures
        solvable(g),
{
    assert(matches_givens(grid_digits(out), g));
}

} // verus!
