//! The 9x9 board: cells, well-formedness, accessors and neighbor lists.

use vstd::prelude::*;

use crate::cell::BoardItem;
use crate::counting::{undef_count, undef_count_upto};
use crate::geometry::{
    block_neighbor_at, block_slot, block_start, col_neighbor_at, in_bounds, is_peer,
    row_neighbor_at,
};

verus! {

/// `nb` lists the 24 neighbor positions of `(row, col)`: its row, column
/// and block neighbors, in that order.
pub open spec fn is_neighbor_list(nb: Seq<(usize, usize)>, row: int, col: int) -> bool {
    &&& nb.len() == 24
    &&& forall|i: int|
        0 <= i < 8 ==> ((#[trigger] nb[i]).0 as int, nb[i].1 as int) == row_neighbor_at(
            row,
            col,
            i,
        )
    &&& forall|i: int|
        8 <= i < 16 ==> ((#[trigger] nb[i]).0 as int, nb[i].1 as int) == col_neighbor_at(
            row,
            col,
            i - 8,
        )
    &&& forall|i: int|
        16 <= i < 24 ==> ((#[trigger] nb[i]).0 as int, nb[i].1 as int) == block_neighbor_at(
            row,
            col,
            i - 16,
        )
}

/// Each entry of a neighbor list is a peer of `(row, col)`.
pub proof fn lemma_neighbor_list_entries(nb: Seq<(usize, usize)>, row: int, col: int)
    requires
        is_neighbor_list(nb, row, col),
        in_bounds(row, col),
    ensures
        forall|j: int|
            0 <= j < 24 ==> is_peer(row, col, (#[trigger] nb[j]).0 as int, nb[j].1 as int),
{
    assert forall|j: int|
        0 <= j < 24 implies is_peer(row, col, (#[trigger] nb[j]).0 as int, nb[j].1 as int) by {
        if j < 8 {
            crate::geometry::lemma_neighbors_are_peers(row, col, j);
        } else if j < 16 {
            crate::geometry::lemma_neighbors_are_peers(row, col, j - 8);
        } else {
            crate::geometry::lemma_neighbors_are_peers(row, col, j - 16);
        }
    }
}

/// Every peer of `(row, col)` occurs somewhere in its neighbor list.
pub proof fn lemma_neighbor_list_complete(
    nb: Seq<(usize, usize)>,
    row: int,
    col: int,
    r2: int,
    c2: int,
)
    requires
        is_neighbor_list(nb, row, col),
        is_peer(row, col, r2, c2),
    ensures
        exists|j: int| 0 <= j < 24 && ((#[trigger] nb[j]).0 as int, nb[j].1 as int) == (r2, c2),
{
    crate::geometry::lemma_peer_is_listed(row, col, r2, c2);
    if exists|i: int| 0 <= i < 8 && row_neighbor_at(row, col, i) == (r2, c2) {
        let i = choose|i: int| 0 <= i < 8 && row_neighbor_at(row, col, i) == (r2, c2);
        assert(((nb[i]).0 as int, nb[i].1 as int) == (r2, c2));
    } else if exists|i: int| 0 <= i < 8 && col_neighbor_at(row, col, i) == (r2, c2) {
        let i = choose|i: int| 0 <= i < 8 && col_neighbor_at(row, col, i) == (r2, c2);
        assert(((nb[i + 8]).0 as int, nb[i + 8].1 as int) == (r2, c2));
    } else {
        let i = choose|i: int| 0 <= i < 8 && block_neighbor_at(row, col, i) == (r2, c2);
        assert(((nb[i + 16]).0 as int, nb[i + 16].1 as int) == (r2, c2));
    }
}

/// Shrinking candidate sets compose.
pub proof fn lemma_within_trans(a: Board, b: Board, c: Board)
    requires
        c.candidates_within(b),
        b.candidates_within(a),
    ensures
        c.candidates_within(a),
{
    assert forall|r: int, c2: int| in_bounds(r, c2) implies (#[trigger] c.cell(
        r,
        c2,
    )).candidates_within(a.cell(r, c2)) by {
        assert(c.cell(r, c2).candidates_within(b.cell(r, c2)));
        assert(b.cell(r, c2).candidates_within(a.cell(r, c2)));
    }
}

/// Keeping fixed digits composes.
pub proof fn lemma_extends_trans(a: Board, b: Board, c: Board)
    requires
        c.extends(b),
        b.extends(a),
    ensures
        c.extends(a),
{
    assert forall|r: int, c2: int|
        in_bounds(r, c2) && (#[trigger] a.cell(r, c2)).is_fixed() implies c.cell(r, c2).value
        == a.cell(r, c2).value by {
        assert(b.cell(r, c2).value == a.cell(r, c2).value);
    }
}

/// Taking digits only from the candidate sets composes across solver steps.
pub proof fn lemma_justified_trans(a: Board, b: Board, c: Board)
    requires
        b.fixes_from_candidates_of(a),
        c.fixes_from_candidates_of(b),
        b.candidates_within(a),
        c.extends(b),
    ensures
        c.fixes_from_candidates_of(a),
{
    assert forall|r: int, c2: int|
        in_bounds(r, c2) && a.cell(r, c2).value is None && (#[trigger] c.cell(
            r,
            c2,
        )).value is Some implies a.cell(r, c2).has_candidate(
        c.cell(r, c2).fixed_value() as int,
    ) by {
        if b.cell(r, c2).value is Some {
            assert(c.cell(r, c2).value == b.cell(r, c2).value);
            assert(a.cell(r, c2).has_candidate(b.cell(r, c2).fixed_value() as int));
        } else {
            assert(b.cell(r, c2).has_candidate(c.cell(r, c2).fixed_value() as int));
            assert(b.cell(r, c2).candidates_within(a.cell(r, c2)));
        }
    }
}

/// Validity depends on the digits alone.
pub proof fn lemma_valid_same_values(a: Board, b: Board)
    requires
        forall|r: int, c: int| in_bounds(r, c) ==> (#[trigger] a.cell(r, c)).value == b.cell(
            r,
            c,
        ).value,
        a.valid(),
    ensures
        b.valid(),
{
    assert forall|r: int, c: int| in_bounds(r, c) implies #[trigger] b.cell_valid(r, c) by {
        assert(a.cell_valid(r, c));
        crate::propagate::lemma_peer_fixed_to_same(a, b, r, c);
        assert(b.cell(r, c).value == a.cell(r, c).value);
    }
}

/// The kind of peer group a strategy ranges over.
pub enum GroupKind {
    Row,
    Column,
    Block,
    All,
}

/// A 9x9 Sudoku board, row-major.
#[derive(Clone, Copy, Debug)]
pub struct Board {
    pub array: [[BoardItem; 9]; 9],
}

impl Board {
    /// The cell at `(r, c)`.
    pub open spec fn cell(self, r: int, c: int) -> BoardItem {
        self.array@[r]@[c]
    }

    /// Every cell is well-formed.
    pub open spec fn wf(self) -> bool {
        forall|r: int, c: int| in_bounds(r, c) ==> (#[trigger] self.cell(r, c)).wf()
    }

    /// Every cell holds a fixed digit.
    pub open spec fn all_fixed(self) -> bool {
        forall|r: int, c: int| in_bounds(r, c) ==> (#[trigger] self.cell(r, c)).is_fixed()
    }

    /// Some peer of `(row, col)` is fixed to the digit `d`.
    pub open spec fn peer_fixed_to(self, row: int, col: int, d: u8) -> bool {
        exists|r2: int, c2: int|
            #[trigger] is_peer(row, col, r2, c2) && self.cell(r2, c2).value == Some(d)
    }

    /// A fixed cell conflicts with no fixed peer.
    pub open spec fn cell_valid(self, row: int, col: int) -> bool {
        self.cell(row, col).is_fixed() ==> !self.peer_fixed_to(
            row,
            col,
            self.cell(row, col).fixed_value(),
        )
    }

    /// No two fixed peers share a digit anywhere on the board.
    pub open spec fn valid(self) -> bool {
        forall|r: int, c: int| in_bounds(r, c) ==> #[trigger] self.cell_valid(r, c)
    }

    /// Every candidate of a cell of `self` is a candidate of the same cell
    /// of `base`: candidate sets only ever shrink.
    pub open spec fn candidates_within(self, base: Board) -> bool {
        forall|r: int, c: int|
            in_bounds(r, c) ==> (#[trigger] self.cell(r, c)).candidates_within(base.cell(r, c))
    }

    /// Every cell fixed in `base` is fixed to the same digit in `self`.
    pub open spec fn extends(self, base: Board) -> bool {
        forall|r: int, c: int|
            in_bounds(r, c) && (#[trigger] base.cell(r, c)).is_fixed() ==> self.cell(r, c).value
                == base.cell(r, c).value
    }

    /// The two boards agree on every cell's digit and candidates.
    pub open spec fn same_cells(self, other: Board) -> bool {
        forall|r: int, c: int|
            in_bounds(r, c) ==> (#[trigger] self.cell(r, c)).same_cell(other.cell(r, c))
    }

    /// Every cell fixed in `self` but not in `base` took one of its
    /// candidates from `base`: the solver never invents a digit.
    pub open spec fn fixes_from_candidates_of(self, base: Board) -> bool {
        forall|r: int, c: int|
            in_bounds(r, c) && base.cell(r, c).value is None && (#[trigger] self.cell(
                r,
                c,
            )).value is Some ==> base.cell(r, c).has_candidate(self.cell(r, c).fixed_value() as int)
    }

    /// `t` is a complete, conflict-free assignment that this board still
    /// admits: it keeps every fixed digit and fills each undetermined cell
    /// with one of its candidates.
    pub open spec fn admits(self, t: Board) -> bool {
        &&& t.wf()
        &&& t.all_fixed()
        &&& t.valid()
        &&& t.extends(self)
        &&& forall|r: int, c: int|
            in_bounds(r, c) && (#[trigger] self.cell(r, c)).value is None ==> self.cell(
                r,
                c,
            ).has_candidate(t.cell(r, c).fixed_value() as int)
    }

    /// No cell keeps a candidate that a fixed peer already holds.
    pub open spec fn no_stale_candidates(self) -> bool {
        forall|r: int, c: int, d: u8|
            in_bounds(r, c) && (#[trigger] self.cell(r, c).has_candidate(d as int))
                ==> !self.peer_fixed_to(r, c, d)
    }

    /// A board over the given cells.
    pub fn new(array: [[BoardItem; 9]; 9]) -> (r: Self)
        ensures
            r.array == array,
    {
        Self { array }
    }

    /// Read the cell at `(row, col)`.
    pub fn get(&self, row: usize, col: usize) -> (r: BoardItem)
        requires
            row < 9,
            col < 9,
        ensures
            r == self.cell(row as int, col as int),
    {
        self.array[row][col]
    }

    /// Replace the cell at `(row, col)`.
    pub(crate) fn put(&mut self, row: usize, col: usize, item: BoardItem)
        requires
            row < 9,
            col < 9,
        ensures
            final(self).cell(row as int, col as int) == item,
            forall|r: int, c: int|
                in_bounds(r, c) && !(r == row && c == col) ==> final(self).cell(r, c) == old(
                    self,
                ).cell(r, c),
    {
        let mut line = self.array[row];
        line[col] = item;
        self.array[row] = line;
    }

    /// All 81 positions of the grid, row-major.
    pub fn get_all_indexes() -> (r: Vec<(usize, usize)>)
        ensures
            r@.len() == 81,
            forall|i: int|
                0 <= i < 81 ==> (#[trigger] r@[i]).0 == i / 9 && r@[i].1 == i % 9,
    {
        let mut r: Vec<(usize, usize)> = Vec::new();
        let mut row: usize = 0;
        while row < 9
            invariant
                row <= 9,
                r@.len() == row * 9,
                forall|i: int| 0 <= i < r@.len() ==> (#[trigger] r@[i]).0 == i / 9 && r@[i].1 == i
                    % 9,
            decreases 9 - row,
        {
            let mut col: usize = 0;
            while col < 9
                invariant
                    row < 9,
                    col <= 9,
                    r@.len() == row * 9 + col,
                    forall|i: int|
                        0 <= i < r@.len() ==> (#[trigger] r@[i]).0 == i / 9 && r@[i].1 == i % 9,
                decreases 9 - col,
            {
                r.push((row, col));
                proof {
                    let i = r@.len() - 1;
                    assert(i == row * 9 + col);
                    assert(i / 9 == row && i % 9 == col) by (nonlinear_arith)
                        requires
                            i == row * 9 + col,
                            0 <= row < 9,
                            0 <= col < 9,
                    ;
                }
                col = col + 1;
            }
            row = row + 1;
        }
        r
    }

    /// The 9 cells of row `row`, left to right.
    pub fn get_row(&self, row: usize) -> (r: Vec<BoardItem>)
        requires
            row < 9,
        ensures
            r@.len() == 9,
            forall|c: int| 0 <= c < 9 ==> #[trigger] r@[c] == self.cell(row as int, c),
    {
        let mut r: Vec<BoardItem> = Vec::new();
        let mut col: usize = 0;
        while col < 9
            invariant
                row < 9,
                col <= 9,
                r@.len() == col,
                forall|c: int| 0 <= c < r@.len() ==> #[trigger] r@[c] == self.cell(row as int, c),
            decreases 9 - col,
        {
            r.push(self.get(row, col));
            col = col + 1;
        }
        r
    }

    /// The 9 cells of column `col`, top to bottom.
    pub fn get_col(&self, col: usize) -> (r: Vec<BoardItem>)
        requires
            col < 9,
        ensures
            r@.len() == 9,
            forall|c: int| 0 <= c < 9 ==> #[trigger] r@[c] == self.cell(c, col as int),
    {
        let mut r: Vec<BoardItem> = Vec::new();
        let mut row: usize = 0;
        while row < 9
            invariant
                col < 9,
                row <= 9,
                r@.len() == row,
                forall|c: int| 0 <= c < r@.len() ==> #[trigger] r@[c] == self.cell(c, col as int),
            decreases 9 - row,
        {
            r.push(self.get(row, col));
            row = row + 1;
        }
        r
    }

    /// Bounds of the 3x3 block containing `(row, col)`:
    /// `(first_row, last_row, first_col, last_col)`, all inclusive.
    pub fn get_block_bounds_from_index(row: usize, col: usize) -> (r: (usize, usize, usize, usize))
        requires
            row < 9,
            col < 9,
        ensures
            r.0 == block_start(row as int),
            r.1 == r.0 + 2,
            r.2 == block_start(col as int),
            r.3 == r.2 + 2,
    {
        let start_row = (row / 3) * 3;
        let end_row = start_row + 2;
        let start_col = (col / 3) * 3;
        let end_col = start_col + 2;
        (start_row, end_row, start_col, end_col)
    }

    /// The 9 cells of the block containing `(row, col)`, row-major.
    pub fn get_block(&self, row: usize, col: usize) -> (r: Vec<BoardItem>)
        requires
            row < 9,
            col < 9,
        ensures
            r@.len() == 9,
            forall|k: int|
                0 <= k < 9 ==> #[trigger] r@[k] == self.cell(
                    block_start(row as int) + k / 3,
                    block_start(col as int) + k % 3,
                ),
    {
        let (start_row, _end_row, start_col, _end_col) = Self::get_block_bounds_from_index(
            row,
            col,
        );
        let mut r: Vec<BoardItem> = Vec::new();
        let mut k: usize = 0;
        while k < 9
            invariant
                row < 9,
                col < 9,
                start_row == block_start(row as int),
                start_col == block_start(col as int),
                k <= 9,
                r@.len() == k,
                forall|j: int|
                    0 <= j < r@.len() ==> #[trigger] r@[j] == self.cell(
                        block_start(row as int) + j / 3,
                        block_start(col as int) + j % 3,
                    ),
            decreases 9 - k,
        {
            r.push(self.get(start_row + k / 3, start_col + k % 3));
            k = k + 1;
        }
        r
    }

    /// Positions of the 8 other cells in row `row`, columns ascending.
    pub fn get_row_neighbor_indexes(&self, row: usize, col: usize) -> (r: Vec<(usize, usize)>)
        requires
            row < 9,
            col < 9,
        ensures
            r@.len() == 8,
            forall|i: int|
                0 <= i < 8 ==> ((#[trigger] r@[i]).0 as int, r@[i].1 as int) == row_neighbor_at(
                    row as int,
                    col as int,
                    i,
                ),
    {
        let mut r: Vec<(usize, usize)> = Vec::new();
        let mut a: usize = 0;
        while a < 9
            invariant
                row < 9,
                col < 9,
                a <= 9,
                r@.len() == if a <= col {
                    a as int
                } else {
                    a - 1
                },
                forall|i: int|
                    0 <= i < r@.len() ==> ((#[trigger] r@[i]).0 as int, r@[i].1 as int)
                        == row_neighbor_at(row as int, col as int, i),
            decreases 9 - a,
        {
            if a != col {
                r.push((row, a));
            }
            a = a + 1;
        }
        r
    }

    /// Positions of the 8 other cells in column `col`, rows ascending.
    pub fn get_col_neighbor_indexes(&self, row: usize, col: usize) -> (r: Vec<(usize, usize)>)
        requires
            row < 9,
            col < 9,
        ensures
            r@.len() == 8,
            forall|i: int|
                0 <= i < 8 ==> ((#[trigger] r@[i]).0 as int, r@[i].1 as int) == col_neighbor_at(
                    row as int,
                    col as int,
                    i,
                ),
    {
        let mut r: Vec<(usize, usize)> = Vec::new();
        let mut a: usize = 0;
        while a < 9
            invariant
                row < 9,
                col < 9,
                a <= 9,
                r@.len() == if a <= row {
                    a as int
                } else {
                    a - 1
                },
                forall|i: int|
                    0 <= i < r@.len() ==> ((#[trigger] r@[i]).0 as int, r@[i].1 as int)
                        == col_neighbor_at(row as int, col as int, i),
            decreases 9 - a,
        {
            if a != row {
                r.push((a, col));
            }
            a = a + 1;
        }
        r
    }

    /// Positions of the 8 other cells in the block of `(row, col)`, row-major.
    pub fn get_block_neighbor_indexes(&self, row: usize, col: usize) -> (r: Vec<(usize, usize)>)
        requires
            row < 9,
            col < 9,
        ensures
            r@.len() == 8,
            forall|i: int|
                0 <= i < 8 ==> ((#[trigger] r@[i]).0 as int, r@[i].1 as int) == block_neighbor_at(
                    row as int,
                    col as int,
                    i,
                ),
    {
        let (start_row, _end_row, start_col, _end_col) = Self::get_block_bounds_from_index(
            row,
            col,
        );
        let ghost slot = block_slot(row as int, col as int);
        proof {
            assert(0 <= slot < 9);
        }
        let mut r: Vec<(usize, usize)> = Vec::new();
        let mut k: usize = 0;
        while k < 9
            invariant
                row < 9,
                col < 9,
                start_row == block_start(row as int),
                start_col == block_start(col as int),
                slot == block_slot(row as int, col as int),
                0 <= slot < 9,
                k <= 9,
                r@.len() == if k <= slot {
                    k as int
                } else {
                    k - 1
                },
                forall|i: int|
                    0 <= i < r@.len() ==> ((#[trigger] r@[i]).0 as int, r@[i].1 as int)
                        == block_neighbor_at(row as int, col as int, i),
            decreases 9 - k,
        {
            let rr = start_row + k / 3;
            let cc = start_col + k % 3;
            proof {
                assert((rr == row && cc == col) <==> k == slot) by (nonlinear_arith)
                    requires
                        0 <= k < 9,
                        row < 9,
                        col < 9,
                        rr == block_start(row as int) + k / 3,
                        cc == block_start(col as int) + k % 3,
                        slot == block_slot(row as int, col as int),
                        block_start(row as int) <= row < block_start(row as int) + 3,
                        block_start(col as int) <= col < block_start(col as int) + 3,
                ;
            }
            if !(rr == row && cc == col) {
                r.push((rr, cc));
            }
            k = k + 1;
        }
        r
    }

    /// The positions of all undetermined cells, row-major.
    pub fn get_undefined_indexes(&self) -> (r: Vec<(usize, usize)>)
        ensures
            r@.len() == undef_count(*self),
            forall|i: int|
                0 <= i < r@.len() ==> in_bounds((#[trigger] r@[i]).0 as int, r@[i].1 as int)
                    && self.cell(r@[i].0 as int, r@[i].1 as int).value is None,
            forall|i: int, j: int|
                0 <= i < j < r@.len() ==> (#[trigger] r@[i]).0 * 9 + r@[i].1 < (#[trigger] r@[j]).0
                    * 9 + r@[j].1,
            forall|r2: int, c2: int|
                in_bounds(r2, c2) && (#[trigger] self.cell(r2, c2)).value is None ==> exists|i: int|
                    0 <= i < r@.len() && (#[trigger] r@[i]).0 == r2 && r@[i].1 == c2,
    {
        let mut r: Vec<(usize, usize)> = Vec::new();
        let mut n: usize = 0;
        while n < 81
            invariant
                n <= 81,
                r@.len() == undef_count_upto(*self, n as int),
                forall|i: int|
                    0 <= i < r@.len() ==> in_bounds((#[trigger] r@[i]).0 as int, r@[i].1 as int)
                        && self.cell(r@[i].0 as int, r@[i].1 as int).value is None,
                forall|i: int| 0 <= i < r@.len() ==> (#[trigger] r@[i]).0 * 9 + r@[i].1 < n,
                forall|i: int, j: int|
                    0 <= i < j < r@.len() ==> (#[trigger] r@[i]).0 * 9 + r@[i].1 < (
                    #[trigger] r@[j]).0 * 9 + r@[j].1,
                forall|r2: int, c2: int|
                    in_bounds(r2, c2) && r2 * 9 + c2 < n && (#[trigger] self.cell(
                        r2,
                        c2,
                    )).value is None ==> exists|i: int|
                        0 <= i < r@.len() && (#[trigger] r@[i]).0 == r2 && r@[i].1 == c2,
            decreases 81 - n,
        {
            let row = n / 9;
            let col = n % 9;
            let ghost r_prev = r@;
            if self.get(row, col).value.is_none() {
                r.push((row, col));
            }
            proof {
                assert(row * 9 + col == n) by (nonlinear_arith)
                    requires
                        row == n / 9,
                        col == n % 9,
                        n < 81,
                ;
                assert forall|r2: int, c2: int|
                    in_bounds(r2, c2) && r2 * 9 + c2 < n + 1 && (#[trigger] self.cell(
                        r2,
                        c2,
                    )).value is None implies exists|i: int|
                    0 <= i < r@.len() && (#[trigger] r@[i]).0 == r2 && r@[i].1 == c2 by {
                    if r2 * 9 + c2 == n {
                        assert(r2 == row && c2 == col) by (nonlinear_arith)
                            requires
                                0 <= r2 < 9,
                                0 <= c2 < 9,
                                row == n / 9,
                                col == n % 9,
                                r2 * 9 + c2 == n,
                        ;
                        assert(r@[r@.len() - 1].0 == r2 && r@[r@.len() - 1].1 == c2);
                    } else {
                        let i = choose|i: int|
                            0 <= i < r_prev.len() && (#[trigger] r_prev[i]).0 == r2 && r_prev[i].1
                                == c2;
                        assert(r@[i].0 == r2 && r@[i].1 == c2);
                    }
                }
            }
            n = n + 1;
        }
        r
    }

    /// How many cells already hold a digit.
    pub fn solved_count(&self) -> (n: usize)
        ensures
            n + undef_count(*self) == 81,
    {
        let mut count: usize = 0;
        let mut n: usize = 0;
        while n < 81
            invariant
                n <= 81,
                count + undef_count_upto(*self, n as int) == n,
            decreases 81 - n,
        {
            let row = n / 9;
            let col = n % 9;
            if self.get(row, col).value.is_some() {
                count = count + 1;
            }
            n = n + 1;
        }
        count
    }

    /// Every cell holds a digit.
    pub fn is_fully_solved(&self) -> (r: bool)
        ensures
            r == self.all_fixed(),
    {
        let mut n: usize = 0;
        while n < 81
            invariant
                n <= 81,
                forall|r2: int, c2: int|
                    in_bounds(r2, c2) && r2 * 9 + c2 < n ==> (#[trigger] self.cell(
                        r2,
                        c2,
                    )).is_fixed(),
            decreases 81 - n,
        {
            let row = n / 9;
            let col = n % 9;
            if self.get(row, col).value.is_none() {
                return false;
            }
            proof {
                assert(row * 9 + col == n) by (nonlinear_arith)
                    requires
                        row == n / 9,
                        col == n % 9,
                        n < 81,
                ;
                assert forall|r2: int, c2: int|
                    in_bounds(r2, c2) && r2 * 9 + c2 < n + 1 implies (#[trigger] self.cell(
                    r2,
                    c2,
                )).is_fixed() by {
                    if r2 * 9 + c2 == n {
                        assert(r2 == row && c2 == col) by (nonlinear_arith)
                            requires
                                0 <= r2 < 9,
                                0 <= c2 < 9,
                                row == n / 9,
                                col == n % 9,
                                r2 * 9 + c2 == n,
                        ;
                    }
                }
            }
            n = n + 1;
        }
        proof {
            assert forall|r2: int, c2: int| in_bounds(r2, c2) implies (#[trigger] self.cell(
                r2,
                c2,
            )).is_fixed() by {
                assert(r2 * 9 + c2 < 81);
            }
        }
        true
    }

    /// The cell at `(row, col)` does not conflict with any of its peers:
    /// it is undetermined, or no fixed peer holds its digit.
    pub fn is_cell_valid(&self, row: usize, col: usize) -> (r: bool)
        requires
            row < 9,
            col < 9,
        ensures
            r == self.cell_valid(row as int, col as int),
    {
        let item = self.get(row, col);
        let v = match item.value {
            None => {
                return true;
            },
            Some(v) => v,
        };
        let nb = self.get_all_neighbor_indexes(row, col);
        proof {
            lemma_neighbor_list_entries(nb@, row as int, col as int);
        }
        let mut n: usize = 0;
        while n < 24
            invariant
                row < 9,
                col < 9,
                n <= 24,
                nb@.len() == 24,
                is_neighbor_list(nb@, row as int, col as int),
                forall|j: int|
                    0 <= j < 24 ==> is_peer(
                        row as int,
                        col as int,
                        (#[trigger] nb@[j]).0 as int,
                        nb@[j].1 as int,
                    ),
                self.cell(row as int, col as int).value == Some(v),
                forall|j: int|
                    0 <= j < n ==> self.cell(
                        (#[trigger] nb@[j]).0 as int,
                        nb@[j].1 as int,
                    ).value != Some(v),
            decreases 24 - n,
        {
            let (r2, c2) = nb[n];
            proof {
                assert(is_peer(
                    row as int,
                    col as int,
                    nb@[n as int].0 as int,
                    nb@[n as int].1 as int,
                ));
            }
            match self.get(r2, c2).value {
                Some(w) => {
                    if w == v {
                        proof {
                            assert(self.peer_fixed_to(row as int, col as int, v));
                        }
                        return false;
                    }
                },
                None => {},
            }
            n = n + 1;
        }
        proof {
            if self.peer_fixed_to(row as int, col as int, v) {
                let (r2, c2) = choose|r2: int, c2: int|
                    #[trigger] is_peer(row as int, col as int, r2, c2) && self.cell(
                        r2,
                        c2,
                    ).value == Some(v);
                lemma_neighbor_list_complete(nb@, row as int, col as int, r2, c2);
            }
        }
        true
    }

    /// No two fixed peers anywhere on the board share a digit.
    pub fn is_valid(&self) -> (r: bool)
        ensures
            r == self.valid(),
    {
        let mut n: usize = 0;
        while n < 81
            invariant
                n <= 81,
                forall|r2: int, c2: int|
                    in_bounds(r2, c2) && r2 * 9 + c2 < n ==> #[trigger] self.cell_valid(r2, c2),
            decreases 81 - n,
        {
            let row = n / 9;
            let col = n % 9;
            if !self.is_cell_valid(row, col) {
                return false;
            }
            proof {
                assert forall|r2: int, c2: int|
                    in_bounds(r2, c2) && r2 * 9 + c2 < n + 1 implies #[trigger] self.cell_valid(
                    r2,
                    c2,
                ) by {
                    if r2 * 9 + c2 == n {
                        assert(r2 == row && c2 == col) by (nonlinear_arith)
                            requires
                                0 <= r2 < 9,
                                0 <= c2 < 9,
                                row == n / 9,
                                col == n % 9,
                                r2 * 9 + c2 == n,
                        ;
                    }
                }
            }
            n = n + 1;
        }
        proof {
            assert forall|r2: int, c2: int| in_bounds(r2, c2) implies #[trigger] self.cell_valid(
                r2,
                c2,
            ) by {
                assert(r2 * 9 + c2 < 81);
            }
        }
        true
    }

    /// The 24 neighbor positions of `(row, col)`: the row, column and block
    /// lists concatenated, without removing the overlaps.
    pub fn get_all_neighbor_indexes(&self, row: usize, col: usize) -> (r: Vec<(usize, usize)>)
        requires
            row < 9,
            col < 9,
        ensures
            is_neighbor_list(r@, row as int, col as int),
    {
        let mut r = self.get_row_neighbor_indexes(row, col);
        let mut cols = self.get_col_neighbor_indexes(row, col);
        let mut blocks = self.get_block_neighbor_indexes(row, col);
        r.append(&mut cols);
        r.append(&mut blocks);
        r
    }
}

} // verus!
