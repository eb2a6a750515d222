//! Per-cell elimination rules: naked single, hidden single, and the
//! helpers they decide with.

use vstd::prelude::*;

use crate::board::{is_neighbor_list, Board, GroupKind};
use crate::geometry::{block_neighbor_at, col_neighbor_at, is_peer, row_neighbor_at};

verus! {

/// `values` holds the digit `x`.
pub(crate) fn vec_contains(values: &Vec<u8>, x: u8) -> (r: bool)
    ensures
        r == values@.contains(x),
{
    let mut i: usize = 0;
    while i < values.len()
        invariant
            i <= values@.len(),
            forall|j: int| 0 <= j < i ==> values@[j] != x,
        decreases values@.len() - i,
    {
        if values[i] == x {
            return true;
        }
        i = i + 1;
    }
    false
}

impl Board {
    /// The value forced on a cell whose candidate list has exactly one
    /// entry, if so.
    pub fn get_value_if_only_one_candidate(candidate_values: &Vec<u8>) -> (r: Option<u8>)
        ensures
            r == if candidate_values@.len() == 1 {
                Some(candidate_values@[0])
            } else {
                None::<u8>
            },
    {
        if candidate_values.len() != 1 {
            return None;
        }
        Some(candidate_values[0])
    }

    /// The single candidate of the cell that no neighbor can still take,
    /// if exactly one such candidate exists.
    pub fn get_value_if_one_value_is_not_possible_in_neighbors(
        neighbor_values: Vec<u8>,
        candidate_values: &Vec<u8>,
    ) -> (r: Option<u8>)
        ensures
            ({
                let missing = candidate_values@.filter(
                    |x: u8| !neighbor_values@.contains(x),
                );
                r == if missing.len() == 1 {
                    Some(missing[0])
                } else {
                    None::<u8>
                }
            }),
            r matches Some(v) ==> candidate_values@.contains(v) && !neighbor_values@.contains(v),
    {
        let mut missing: Vec<u8> = Vec::new();
        let mut i: usize = 0;
        while i < candidate_values.len()
            invariant
                i <= candidate_values@.len(),
                missing@ == candidate_values@.take(i as int).filter(
                    |x: u8| !neighbor_values@.contains(x),
                ),
                forall|j: int| 0 <= j < missing@.len() ==> candidate_values@.contains(
                    #[trigger] missing@[j],
                ),
            decreases candidate_values@.len() - i,
        {
            let x = candidate_values[i];
            if !vec_contains(&neighbor_values, x) {
                missing.push(x);
            }
            proof {
                reveal(Seq::filter);
                let taken = candidate_values@.take(i + 1);
                assert(taken.drop_last() =~= candidate_values@.take(i as int));
                assert(taken.last() == x);
                assert(candidate_values@.contains(x)) by {
                    assert(candidate_values@[i as int] == x);
                }
            }
            i = i + 1;
        }
        proof {
            assert(candidate_values@.take(candidate_values@.len() as int) =~= candidate_values@);
        }
        if missing.len() == 1 {
            Some(missing[0])
        } else {
            None
        }
    }

    /// Hidden-single rule: a candidate of this cell that appears in no
    /// neighbor's candidate set within a group must be its value.
    pub fn get_value_if_not_candidate_in_neighbors(
        neighbor_values: Vec<u8>,
        candidate_values: &Vec<u8>,
    ) -> (r: Option<u8>)
        ensures
            ({
                let missing = candidate_values@.filter(
                    |x: u8| !neighbor_values@.contains(x),
                );
                r == if missing.len() == 1 {
                    Some(missing[0])
                } else {
                    None::<u8>
                }
            }),
            r matches Some(v) ==> candidate_values@.contains(v) && !neighbor_values@.contains(v),
    {
        Self::get_value_if_one_value_is_not_possible_in_neighbors(
            neighbor_values,
            candidate_values,
        )
    }

    /// The neighbor positions of `(row, col)` within one kind of group.
    pub fn get_group_neighbor_indexes(&self, kind: &GroupKind, row: usize, col: usize) -> (r: Vec<
        (usize, usize),
    >)
        requires
            row < 9,
            col < 9,
        ensures
            match *kind {
                GroupKind::Row => r@.len() == 8 && forall|i: int|
                    0 <= i < 8 ==> ((#[trigger] r@[i]).0 as int, r@[i].1 as int)
                        == row_neighbor_at(row as int, col as int, i),
                GroupKind::Column => r@.len() == 8 && forall|i: int|
                    0 <= i < 8 ==> ((#[trigger] r@[i]).0 as int, r@[i].1 as int)
                        == col_neighbor_at(row as int, col as int, i),
                GroupKind::Block => r@.len() == 8 && forall|i: int|
                    0 <= i < 8 ==> ((#[trigger] r@[i]).0 as int, r@[i].1 as int)
                        == block_neighbor_at(row as int, col as int, i),
                GroupKind::All => is_neighbor_list(r@, row as int, col as int),
            },
            r@.len() <= 24,
            forall|i: int|
                0 <= i < r@.len() ==> is_peer(
                    row as int,
                    col as int,
                    (#[trigger] r@[i]).0 as int,
                    r@[i].1 as int,
                ),
    {
        match kind {
            GroupKind::Row => {
                let r = self.get_row_neighbor_indexes(row, col);
                proof {
                    assert forall|i: int| 0 <= i < r@.len() implies is_peer(
                        row as int,
                        col as int,
                        (#[trigger] r@[i]).0 as int,
                        r@[i].1 as int,
                    ) by {
                        crate::geometry::lemma_neighbors_are_peers(row as int, col as int, i);
                    }
                }
                r
            },
            GroupKind::Column => {
                let r = self.get_col_neighbor_indexes(row, col);
                proof {
                    assert forall|i: int| 0 <= i < r@.len() implies is_peer(
                        row as int,
                        col as int,
                        (#[trigger] r@[i]).0 as int,
                        r@[i].1 as int,
                    ) by {
                        crate::geometry::lemma_neighbors_are_peers(row as int, col as int, i);
                    }
                }
                r
            },
            GroupKind::Block => {
                let r = self.get_block_neighbor_indexes(row, col);
                proof {
                    assert forall|i: int| 0 <= i < r@.len() implies is_peer(
                        row as int,
                        col as int,
                        (#[trigger] r@[i]).0 as int,
                        r@[i].1 as int,
                    ) by {
                        crate::geometry::lemma_neighbors_are_peers(row as int, col as int, i);
                    }
                }
                r
            },
            GroupKind::All => {
                let r = self.get_all_neighbor_indexes(row, col);
                proof {
                    crate::board::lemma_neighbor_list_entries(r@, row as int, col as int);
                }
                r
            },
        }
    }

}

} // verus!
