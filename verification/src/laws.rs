//! Board-wide laws of the engine, proved once and for all.

use vstd::prelude::*;

use vstd::set_lib::lemma_int_range;
use vstd::set_lib::set_int_range;

use crate::board::Board;
use crate::geometry::{in_bounds, is_peer};

verus! {

/// The digits held by the first `k` cells of a 9-cell group, where
/// `coords(i)` is the position of the group's `i`-th cell.
spec fn digits_of_prefix(b: Board, coords: spec_fn(int) -> (int, int), k: int) -> Set<int>
    decreases k,
{
    if k <= 0 {
        Set::empty()
    } else {
        digits_of_prefix(b, coords, k - 1).insert(
            b.cell(coords(k - 1).0, coords(k - 1).1).fixed_value() as int,
        )
    }
}

proof fn lemma_prefix_card(b: Board, coords: spec_fn(int) -> (int, int), k: int)
    requires
        0 <= k <= 9,
        forall|i: int|
            0 <= i < 9 ==> in_bounds((#[trigger] coords(i)).0, coords(i).1) && b.cell(
                coords(i).0,
                coords(i).1,
            ).is_fixed() && 1 <= b.cell(coords(i).0, coords(i).1).fixed_value() <= 9,
        forall|i: int, j: int|
            0 <= i < j < 9 ==> b.cell((#[trigger] coords(i)).0, coords(i).1).fixed_value()
                != b.cell((#[trigger] coords(j)).0, coords(j).1).fixed_value(),
    ensures
        digits_of_prefix(b, coords, k).finite(),
        digits_of_prefix(b, coords, k).len() == k,
        forall|d: int|
            #[trigger] digits_of_prefix(b, coords, k).contains(d) ==> exists|i: int|
                0 <= i < k && b.cell((#[trigger] coords(i)).0, coords(i).1).fixed_value() == d,
    decreases k,
{
    if k > 0 {
        lemma_prefix_card(b, coords, k - 1);
        let s_prev = digits_of_prefix(b, coords, k - 1);
        let v = b.cell(coords(k - 1).0, coords(k - 1).1).fixed_value() as int;
        if s_prev.contains(v) {
            let i = choose|i: int|
                0 <= i < k - 1 && b.cell((#[trigger] coords(i)).0, coords(i).1).fixed_value()
                    == v;
            assert(false);
        }
        assert forall|d: int| #[trigger] digits_of_prefix(b, coords, k).contains(d) implies exists|
            i: int,
        |
            0 <= i < k && b.cell((#[trigger] coords(i)).0, coords(i).1).fixed_value() == d by {
            if d == v {
                assert(b.cell((coords(k - 1)).0, coords(k - 1).1).fixed_value() == d);
            } else {
                assert(s_prev.contains(d));
            }
        }
    }
}

/// Row `r` has a cell fixed to the digit `d`.
pub open spec fn row_has_digit(b: Board, r: int, d: u8) -> bool {
    exists|c: int| 0 <= c < 9 && #[trigger] b.cell(r, c).value == Some(d)
}

/// Column `c` has a cell fixed to the digit `d`.
pub open spec fn col_has_digit(b: Board, c: int, d: u8) -> bool {
    exists|r: int| 0 <= r < 9 && #[trigger] b.cell(r, c).value == Some(d)
}

/// The `g`-th 3x3 block (row-major) has a cell fixed to the digit `d`.
pub open spec fn block_has_digit(b: Board, g: int, d: u8) -> bool {
    exists|i: int|
        0 <= i < 9 && #[trigger] b.cell(3 * (g / 3) + i / 3, 3 * (g % 3) + i % 3).value == Some(d)
}

/// A group of 9 pairwise-distinct digits from `1..=9` holds the digit `d`.
proof fn lemma_group_is_permutation(b: Board, coords: spec_fn(int) -> (int, int), d: u8)
    requires
        1 <= d <= 9,
        forall|i: int|
            0 <= i < 9 ==> in_bounds((#[trigger] coords(i)).0, coords(i).1) && b.cell(
                coords(i).0,
                coords(i).1,
            ).is_fixed() && 1 <= b.cell(coords(i).0, coords(i).1).fixed_value() <= 9,
        forall|i: int, j: int|
            0 <= i < j < 9 ==> b.cell((#[trigger] coords(i)).0, coords(i).1).fixed_value()
                != b.cell((#[trigger] coords(j)).0, coords(j).1).fixed_value(),
    ensures
        exists|i: int|
            0 <= i < 9 && b.cell((#[trigger] coords(i)).0, coords(i).1).value == Some(d),
{
    lemma_prefix_card(b, coords, 9);
    let s = digits_of_prefix(b, coords, 9);
    let digits = set_int_range(1, 10);
    lemma_int_range(1, 10);
    if !s.contains(d as int) {
        assert forall|e: int| s.contains(e) implies digits.contains(e) by {
            let i = choose|i: int|
                0 <= i < 9 && b.cell((#[trigger] coords(i)).0, coords(i).1).fixed_value() == e;
        }
        s.lemma_subset_not_in_lt(digits, d as int);
        assert(false);
    }
    let i = choose|i: int|
        0 <= i < 9 && b.cell((#[trigger] coords(i)).0, coords(i).1).fixed_value() == d as int;
    assert(b.cell(coords(i).0, coords(i).1).value == Some(d));
}

/// Law: on a complete board with no conflicting peers, every row, every
/// column and every 3x3 block holds each digit `1..=9` exactly once:
/// each group is a permutation of the digits.
pub proof fn lemma_solved_groups_are_permutations(b: Board)
    requires
        b.wf(),
        b.all_fixed(),
        b.valid(),
    ensures
        forall|r: int, d: u8| 0 <= r < 9 && 1 <= d <= 9 ==> #[trigger] row_has_digit(b, r, d),
        forall|c: int, d: u8| 0 <= c < 9 && 1 <= d <= 9 ==> #[trigger] col_has_digit(b, c, d),
        forall|g: int, d: u8| 0 <= g < 9 && 1 <= d <= 9 ==> #[trigger] block_has_digit(b, g, d),
        forall|r1: int, c1: int, r2: int, c2: int|
            #[trigger] is_peer(r1, c1, r2, c2) ==> b.cell(r1, c1).fixed_value() != b.cell(
                r2,
                c2,
            ).fixed_value(),
{
    assert forall|r1: int, c1: int, r2: int, c2: int| #[trigger] is_peer(r1, c1, r2, c2) implies b
        .cell(r1, c1).fixed_value() != b.cell(r2, c2).fixed_value() by {
        assert(b.cell_valid(r1, c1));
        if b.cell(r1, c1).fixed_value() == b.cell(r2, c2).fixed_value() {
            assert(b.cell(r2, c2).value == Some(b.cell(r1, c1).fixed_value()));
            assert(b.peer_fixed_to(r1, c1, b.cell(r1, c1).fixed_value()));
        }
    }
    assert forall|r: int, d: u8| 0 <= r < 9 && 1 <= d <= 9 implies #[trigger] row_has_digit(
        b,
        r,
        d,
    ) by {
        let coords = |i: int| (r, i);
        assert forall|i: int, j: int|
            0 <= i < j < 9 implies b.cell((#[trigger] coords(i)).0, coords(i).1).fixed_value()
            != b.cell((#[trigger] coords(j)).0, coords(j).1).fixed_value() by {
            assert(is_peer(r, i, r, j));
        }
        lemma_group_is_permutation(b, coords, d);
        let i = choose|i: int|
            0 <= i < 9 && b.cell((#[trigger] coords(i)).0, coords(i).1).value == Some(d);
        assert(b.cell(r, i).value == Some(d));
    }
    assert forall|c: int, d: u8| 0 <= c < 9 && 1 <= d <= 9 implies #[trigger] col_has_digit(
        b,
        c,
        d,
    ) by {
        let coords = |i: int| (i, c);
        assert forall|i: int, j: int|
            0 <= i < j < 9 implies b.cell((#[trigger] coords(i)).0, coords(i).1).fixed_value()
            != b.cell((#[trigger] coords(j)).0, coords(j).1).fixed_value() by {
            assert(is_peer(i, c, j, c));
        }
        lemma_group_is_permutation(b, coords, d);
        let i = choose|i: int|
            0 <= i < 9 && b.cell((#[trigger] coords(i)).0, coords(i).1).value == Some(d);
        assert(b.cell(i, c).value == Some(d));
    }
    assert forall|g: int, d: u8| 0 <= g < 9 && 1 <= d <= 9 implies #[trigger] block_has_digit(
        b,
        g,
        d,
    ) by {
        let coords = |i: int| (3 * (g / 3) + i / 3, 3 * (g % 3) + i % 3);
        assert forall|i: int| 0 <= i < 9 implies in_bounds(
            (#[trigger] coords(i)).0,
            coords(i).1,
        ) by {
            assert(0 <= g / 3 <= 2 && 0 <= g % 3 <= 2 && 0 <= i / 3 <= 2 && 0 <= i % 3 <= 2);
        }
        assert forall|i: int, j: int|
            0 <= i < j < 9 implies b.cell((#[trigger] coords(i)).0, coords(i).1).fixed_value()
            != b.cell((#[trigger] coords(j)).0, coords(j).1).fixed_value() by {
            let (ri, ci) = coords(i);
            let (rj, cj) = coords(j);
            assert(!(ri == rj && ci == cj) && ri / 3 == rj / 3 && ci / 3 == cj / 3)
                by (nonlinear_arith)
                requires
                    0 <= i < j < 9,
                    0 <= g < 9,
                    ri == 3 * (g / 3) + i / 3,
                    ci == 3 * (g % 3) + i % 3,
                    rj == 3 * (g / 3) + j / 3,
                    cj == 3 * (g % 3) + j % 3,
            ;
            assert(is_peer(ri, ci, rj, cj));
        }
        lemma_group_is_permutation(b, coords, d);
        let i = choose|i: int|
            0 <= i < 9 && b.cell((#[trigger] coords(i)).0, coords(i).1).value == Some(d);
        assert(b.cell(3 * (g / 3) + i / 3, 3 * (g % 3) + i % 3).value == Some(d));
    }
}

/// Law: once a cell is fixed to a digit, that digit is gone from every
/// peer's candidate set, and stays gone in every later state whose
/// candidate sets only shrank further.
pub proof fn lemma_fixed_digit_never_reappears(b: Board, c: Board, row: int, col: int, d: u8)
    requires
        forall|r2: int, c2: int|
            is_peer(row, col, r2, c2) ==> !(#[trigger] b.cell(r2, c2)).has_candidate(d as int),
        c.candidates_within(b),
    ensures
        forall|r2: int, c2: int|
            is_peer(row, col, r2, c2) ==> !(#[trigger] c.cell(r2, c2)).has_candidate(d as int),
{
    assert forall|r2: int, c2: int| is_peer(row, col, r2, c2) implies !(#[trigger] c.cell(
        r2,
        c2,
    )).has_candidate(d as int) by {
        assert(in_bounds(r2, c2));
        if c.cell(r2, c2).has_candidate(d as int) {
            assert(b.cell(r2, c2).has_candidate(d as int));
        }
    }
}

} // verus!
