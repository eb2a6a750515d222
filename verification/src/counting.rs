//! Ghost counts over boards: undetermined cells and remaining candidates.
//!
//! These counts bound the work left on a board; the propagation cascade and
//! the backtracking search both terminate because one of them shrinks.

use vstd::prelude::*;

use crate::board::Board;
use crate::cell::BoardItem;
use crate::geometry::in_bounds;

verus! {

/// Number of undetermined cells among the first `n` positions, row-major.
pub open spec fn undef_count_upto(b: Board, n: int) -> nat
    decreases n,
{
    if n <= 0 {
        0
    } else {
        undef_count_upto(b, n - 1) + if b.cell((n - 1) / 9, (n - 1) % 9).value is None {
            1nat
        } else {
            0nat
        }
    }
}

/// Number of undetermined cells on the board.
pub open spec fn undef_count(b: Board) -> nat {
    undef_count_upto(b, 81)
}

pub proof fn lemma_undef_count_upto_le(b: Board, n: int)
    requires
        n >= 0,
    ensures
        undef_count_upto(b, n) <= n,
    decreases n,
{
    if n > 0 {
        lemma_undef_count_upto_le(b, n - 1);
    }
}

/// Fixing exactly one previously-undetermined cell lowers the count by one.
pub proof fn lemma_undef_count_fix(a: Board, b: Board, row: int, col: int, n: int)
    requires
        in_bounds(row, col),
        a.cell(row, col).value is None,
        b.cell(row, col).value is Some,
        forall|r: int, c: int|
            in_bounds(r, c) && !(r == row && c == col) ==> (#[trigger] a.cell(r, c)).value
                == b.cell(r, c).value,
        0 <= n <= 81,
    ensures
        undef_count_upto(b, n) + if row * 9 + col < n {
            1int
        } else {
            0int
        } == undef_count_upto(a, n),
    decreases n,
{
    if n > 0 {
        lemma_undef_count_fix(a, b, row, col, n - 1);
        let r = (n - 1) / 9;
        let c = (n - 1) % 9;
        assert(in_bounds(r, c));
        assert((r == row && c == col) <==> n - 1 == row * 9 + col) by (nonlinear_arith)
            requires
                0 <= row < 9,
                0 <= col < 9,
                r == (n - 1) / 9,
                c == (n - 1) % 9,
                n >= 1,
        ;
    }
}

/// A board that only ever fixes more cells has no more undetermined cells.
pub proof fn lemma_undef_count_extends(a: Board, b: Board, n: int)
    requires
        forall|r: int, c: int|
            in_bounds(r, c) && (#[trigger] a.cell(r, c)).value is Some ==> b.cell(
                r,
                c,
            ).value is Some,
        0 <= n <= 81,
    ensures
        undef_count_upto(b, n) <= undef_count_upto(a, n),
    decreases n,
{
    if n > 0 {
        lemma_undef_count_extends(a, b, n - 1);
        assert(in_bounds((n - 1) / 9, (n - 1) % 9));
    }
}

/// Fixing more cells, among them one known undetermined position, lowers
/// the count strictly.
pub proof fn lemma_undef_count_extends_strict(a: Board, b: Board, row: int, col: int, n: int)
    requires
        forall|r: int, c: int|
            in_bounds(r, c) && (#[trigger] a.cell(r, c)).value is Some ==> b.cell(
                r,
                c,
            ).value is Some,
        in_bounds(row, col),
        a.cell(row, col).value is None,
        b.cell(row, col).value is Some,
        0 <= n <= 81,
    ensures
        undef_count_upto(b, n) + if row * 9 + col < n {
            1int
        } else {
            0int
        } <= undef_count_upto(a, n),
    decreases n,
{
    if n > 0 {
        lemma_undef_count_extends_strict(a, b, row, col, n - 1);
        let r = (n - 1) / 9;
        let c = (n - 1) % 9;
        assert(in_bounds(r, c));
        assert((r == row && c == col) <==> n - 1 == row * 9 + col) by (nonlinear_arith)
            requires
                0 <= row < 9,
                0 <= col < 9,
                r == (n - 1) / 9,
                c == (n - 1) % 9,
                n >= 1,
        ;
    }
}

/// No undetermined cell is down to a single candidate: propagation has
/// nothing left to do.
pub open spec fn no_single_left(b: Board) -> bool {
    forall|r: int, c: int|
        in_bounds(r, c) && (#[trigger] b.cell(r, c)).value is None ==> b.cell(r, c).cand_count()
            != 1
}

/// Cells with the same candidates have the same count.
pub proof fn lemma_cand_count_same(a: BoardItem, b: BoardItem, d: int)
    requires
        forall|e: int| a.has_candidate(e) == b.has_candidate(e),
        d >= 0,
    ensures
        a.cand_count_upto(d) == b.cand_count_upto(d),
    decreases d,
{
    if d > 0 {
        lemma_cand_count_same(a, b, d - 1);
    }
}

pub proof fn lemma_cand_count_within(a: BoardItem, b: BoardItem, d: int)
    requires
        a.candidates_within(b),
        d >= 0,
    ensures
        a.cand_count_upto(d) <= b.cand_count_upto(d),
    decreases d,
{
    if d > 0 {
        lemma_cand_count_within(a, b, d - 1);
    }
}

/// Dropping a present candidate strictly lowers the candidate count.
pub proof fn lemma_cand_count_strict(a: BoardItem, b: BoardItem, missing: int, d: int)
    requires
        a.candidates_within(b),
        b.has_candidate(missing),
        !a.has_candidate(missing),
        1 <= missing <= d,
    ensures
        a.cand_count_upto(d) < b.cand_count_upto(d),
    decreases d,
{
    if missing == d {
        lemma_cand_count_within(a, b, d - 1);
    } else {
        lemma_cand_count_strict(a, b, missing, d - 1);
    }
}

/// Total number of candidates among the first `n` positions, row-major.
pub open spec fn total_cands_upto(b: Board, n: int) -> nat
    decreases n,
{
    if n <= 0 {
        0
    } else {
        total_cands_upto(b, n - 1) + b.cell((n - 1) / 9, (n - 1) % 9).cand_count()
    }
}

/// Total number of candidates on the board.
pub open spec fn total_cands(b: Board) -> nat {
    total_cands_upto(b, 81)
}

pub proof fn lemma_total_cands_within(a: Board, b: Board, n: int)
    requires
        a.candidates_within(b),
        0 <= n <= 81,
    ensures
        total_cands_upto(a, n) <= total_cands_upto(b, n),
    decreases n,
{
    if n > 0 {
        lemma_total_cands_within(a, b, n - 1);
        assert(in_bounds((n - 1) / 9, (n - 1) % 9));
        lemma_cand_count_within(a.cell((n - 1) / 9, (n - 1) % 9), b.cell((n - 1) / 9, (n - 1) % 9), 9);
    }
}

/// Dropping a present candidate anywhere strictly lowers the total.
pub proof fn lemma_total_cands_strict(a: Board, b: Board, row: int, col: int, missing: int, n: int)
    requires
        a.candidates_within(b),
        in_bounds(row, col),
        b.cell(row, col).has_candidate(missing),
        !a.cell(row, col).has_candidate(missing),
        0 <= n <= 81,
    ensures
        total_cands_upto(a, n) <= total_cands_upto(b, n),
        row * 9 + col < n ==> total_cands_upto(a, n) < total_cands_upto(b, n),
    decreases n,
{
    lemma_total_cands_within(a, b, n);
    if n > 0 {
        lemma_total_cands_strict(a, b, row, col, missing, n - 1);
        let r = (n - 1) / 9;
        let c = (n - 1) % 9;
        assert(in_bounds(r, c));
        assert((r == row && c == col) <==> n - 1 == row * 9 + col) by (nonlinear_arith)
            requires
                0 <= row < 9,
                0 <= col < 9,
                r == (n - 1) / 9,
                c == (n - 1) % 9,
                n >= 1,
        ;
        lemma_total_cands_within(a, b, n - 1);
        if n - 1 == row * 9 + col {
            assert(1 <= missing <= 9);
            lemma_cand_count_strict(a.cell(r, c), b.cell(r, c), missing, 9);
        } else {
            lemma_cand_count_within(a.cell(r, c), b.cell(r, c), 9);
        }
    }
}

} // verus!
