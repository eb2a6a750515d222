//! Pure geometry of the 9x9 grid: bounds, blocks, and the peer relation.

use vstd::prelude::*;

verus! {

/// `(r, c)` lies on the 9x9 grid.
pub open spec fn in_bounds(r: int, c: int) -> bool {
    0 <= r < 9 && 0 <= c < 9
}

/// First row (or column) of the 3x3 block containing `x`.
pub open spec fn block_start(x: int) -> int {
    (x / 3) * 3
}

/// The two positions share a 3x3 block.
pub open spec fn same_block(r1: int, c1: int, r2: int, c2: int) -> bool {
    block_start(r1) == block_start(r2) && block_start(c1) == block_start(c2)
}

/// `(r2, c2)` is a peer of `(r1, c1)`: a distinct cell in the same row,
/// the same column, or the same 3x3 block.
pub open spec fn is_peer(r1: int, c1: int, r2: int, c2: int) -> bool {
    &&& in_bounds(r1, c1)
    &&& in_bounds(r2, c2)
    &&& !(r1 == r2 && c1 == c2)
    &&& (r1 == r2 || c1 == c2 || same_block(r1, c1, r2, c2))
}

/// The `i`-th row neighbor of `(row, col)`: columns ascending, skipping `col`.
pub open spec fn row_neighbor_at(row: int, col: int, i: int) -> (int, int) {
    (row, if i < col { i } else { i + 1 })
}

/// The `i`-th column neighbor of `(row, col)`: rows ascending, skipping `row`.
pub open spec fn col_neighbor_at(row: int, col: int, i: int) -> (int, int) {
    (if i < row { i } else { i + 1 }, col)
}

/// Position of `(row, col)` inside its own block, row-major in `0..9`.
pub open spec fn block_slot(row: int, col: int) -> int {
    (row - block_start(row)) * 3 + (col - block_start(col))
}

/// The `i`-th block neighbor of `(row, col)`: the block's cells row-major,
/// skipping the cell itself.
pub open spec fn block_neighbor_at(row: int, col: int, i: int) -> (int, int) {
    let k = if i < block_slot(row, col) {
        i
    } else {
        i + 1
    };
    (block_start(row) + k / 3, block_start(col) + k % 3)
}

/// Each entry of the three neighbor lists is a peer of `(row, col)`.
pub proof fn lemma_neighbors_are_peers(row: int, col: int, i: int)
    requires
        in_bounds(row, col),
        0 <= i < 8,
    ensures
        is_peer(row, col, row_neighbor_at(row, col, i).0, row_neighbor_at(row, col, i).1),
        is_peer(row, col, col_neighbor_at(row, col, i).0, col_neighbor_at(row, col, i).1),
        is_peer(row, col, block_neighbor_at(row, col, i).0, block_neighbor_at(row, col, i).1),
{
    let k = if i < block_slot(row, col) {
        i
    } else {
        i + 1
    };
    assert(0 <= k < 9 && k != block_slot(row, col));
    assert(block_start(block_start(row) + k / 3) == block_start(row)) by (nonlinear_arith)
        requires
            in_bounds(row, col),
            0 <= k < 9,
    ;
    assert(block_start(block_start(col) + k % 3) == block_start(col)) by (nonlinear_arith)
        requires
            in_bounds(row, col),
            0 <= k < 9,
    ;
    assert(block_slot(block_start(row) + k / 3, block_start(col) + k % 3) == k)
        by (nonlinear_arith)
        requires
            in_bounds(row, col),
            0 <= k < 9,
            block_start(block_start(row) + k / 3) == block_start(row),
            block_start(block_start(col) + k % 3) == block_start(col),
    ;
}

/// Every peer of `(row, col)` appears in one of the three neighbor lists.
pub proof fn lemma_peer_is_listed(row: int, col: int, r2: int, c2: int)
    requires
        is_peer(row, col, r2, c2),
    ensures
        (exists|i: int| 0 <= i < 8 && row_neighbor_at(row, col, i) == (r2, c2)) || (exists|i: int|
            0 <= i < 8 && col_neighbor_at(row, col, i) == (r2, c2)) || (exists|i: int|
            0 <= i < 8 && block_neighbor_at(row, col, i) == (r2, c2)),
{
    if r2 == row {
        let i = if c2 < col {
            c2
        } else {
            c2 - 1
        };
        assert(0 <= i < 8 && row_neighbor_at(row, col, i) == (r2, c2));
    } else if c2 == col {
        let i = if r2 < row {
            r2
        } else {
            r2 - 1
        };
        assert(0 <= i < 8 && col_neighbor_at(row, col, i) == (r2, c2));
    } else {
        let k = block_slot(r2, c2);
        let k0 = block_slot(row, col);
        assert(0 <= k < 9 && 0 <= k0 < 9);
        assert(k != k0);
        assert(block_start(r2) + k / 3 == r2 && block_start(c2) + k % 3 == c2)
            by (nonlinear_arith)
            requires
                in_bounds(r2, c2),
                k == block_slot(r2, c2),
        ;
        let i = if k < k0 {
            k
        } else {
            k - 1
        };
        assert(0 <= i < 8 && block_neighbor_at(row, col, i) == (r2, c2));
    }
}

} // verus!
