//! A single cell of the board: either a fixed digit or a set of candidates.

use vstd::prelude::*;

verus! {

/// One cell of a Sudoku board.
///
/// A cell is either fixed to a digit in `1..=9` (and then carries no
/// candidates) or undetermined, with `candidates[d - 1]` recording whether
/// the digit `d` is still possible for it.
#[derive(Clone, Copy, Debug, PartialEq)]
pub struct BoardItem {
    pub value: Option<u8>,
    pub candidates: [bool; 9],
}

impl BoardItem {
    /// The digit `d` is still a candidate for this cell.
    pub open spec fn has_candidate(self, d: int) -> bool {
        1 <= d <= 9 && self.candidates@[d - 1]
    }

    /// The cell holds a fixed digit.
    pub open spec fn is_fixed(self) -> bool {
        self.value is Some
    }

    /// The digit the cell is fixed to (meaningful only when fixed).
    pub open spec fn fixed_value(self) -> u8 {
        self.value->Some_0
    }

    /// Well-formedness: a fixed digit lies in `1..=9` and leaves no
    /// candidates behind.
    pub open spec fn wf(self) -> bool {
        self.is_fixed() ==> {
            &&& 1 <= self.fixed_value() <= 9
            &&& forall|d: int| !self.has_candidate(d)
        }
    }

    /// The two cells are indistinguishable: same value, same candidates.
    pub open spec fn same_cell(self, other: Self) -> bool {
        &&& self.value == other.value
        &&& forall|d: int| self.has_candidate(d) == other.has_candidate(d)
    }

    /// Every candidate of `self` is also one of `other`.
    pub open spec fn candidates_within(self, other: Self) -> bool {
        forall|d: int| self.has_candidate(d) ==> other.has_candidate(d)
    }

    /// Number of candidates among the digits `1..=d`.
    pub open spec fn cand_count_upto(self, d: int) -> nat
        decreases d,
    {
        if d <= 0 {
            0
        } else {
            self.cand_count_upto(d - 1) + if self.has_candidate(d) {
                1nat
            } else {
                0nat
            }
        }
    }

    /// Number of remaining candidates.
    pub open spec fn cand_count(self) -> nat {
        self.cand_count_upto(9)
    }

    /// A cell fixed to `value`, with an empty candidate set.
    pub fn known(value: u8) -> (r: Self)
        requires
            1 <= value <= 9,
        ensures
            r.value == Some(value),
            r.wf(),
            forall|d: int| !r.has_candidate(d),
    {
        Self {
            value: Some(value),
            candidates: [false, false, false, false, false, false, false, false, false],
        }
    }

    /// An undetermined cell, with every digit still a candidate.
    pub fn unknown() -> (r: Self)
        ensures
            r.value is None,
            r.wf(),
            forall|d: int| 1 <= d <= 9 ==> r.has_candidate(d),
    {
        Self {
            value: None,
            candidates: [true, true, true, true, true, true, true, true, true],
        }
    }

    /// The remaining candidates, as digits in strictly ascending order.
    pub fn get_candidates(&self) -> (r: Vec<u8>)
        ensures
            r@.len() == self.cand_count(),
            forall|i: int| 0 <= i < r@.len() ==> self.has_candidate(#[trigger] r@[i] as int),
            forall|i: int, j: int| 0 <= i < j < r@.len() ==> r@[i] < r@[j],
            forall|d: u8| self.has_candidate(d as int) ==> r@.contains(d),
    {
        let mut r: Vec<u8> = Vec::new();
        let mut d: u8 = 1;
        while d <= 9
            invariant
                1 <= d <= 10,
                r@.len() == self.cand_count_upto(d - 1),
                forall|i: int| 0 <= i < r@.len() ==> self.has_candidate(#[trigger] r@[i] as int),
                forall|i: int| 0 <= i < r@.len() ==> #[trigger] r@[i] < d,
                forall|i: int, j: int| 0 <= i < j < r@.len() ==> r@[i] < r@[j],
                forall|e: u8| e < d && self.has_candidate(e as int) ==> r@.contains(e),
            decreases 10 - d,
        {
            let ghost r_prev = r@;
            if self.candidates[(d - 1) as usize] {
                r.push(d);
            }
            proof {
                assert forall|e: u8| e < d + 1 && self.has_candidate(e as int) implies r@.contains(
                    e,
                ) by {
                    if e < d {
                        let i = choose|i: int| 0 <= i < r_prev.len() && r_prev[i] == e;
                        assert(r@[i] == e);
                    } else {
                        assert(r@[r@.len() - 1] == e);
                    }
                }
            }
            d = d + 1;
        }
        r
    }

    /// Drop `value` from the candidate set; the cell's digit is untouched.
    pub fn remove_candidate(&mut self, value: u8)
        requires
            1 <= value <= 9,
        ensures
            final(self).value == old(self).value,
            !final(self).has_candidate(value as int),
            forall|d: int| d != value ==> final(self).has_candidate(d) == old(
                self,
            ).has_candidate(d),
    {
        self.candidates[(value - 1) as usize] = false;
    }

    /// Fix the cell to `value`, clearing its candidate set.
    pub fn set_value(&mut self, value: u8)
        requires
            1 <= value <= 9,
        ensures
            final(self).value == Some(value),
            final(self).wf(),
            forall|d: int| !final(self).has_candidate(d),
    {
        self.candidates = [false, false, false, false, false, false, false, false, false];
        self.value = Some(value);
    }

    /// Whether the digit `d` is still a candidate.
    pub fn candidate(&self, d: u8) -> (r: bool)
        requires
            1 <= d <= 9,
        ensures
            r == self.has_candidate(d as int),
    {
        self.candidates[(d - 1) as usize]
    }

    /// The cell already holds a digit.
    pub fn is_solved(&self) -> (r: bool)
        ensures
            r == self.is_fixed(),
    {
        self.value.is_some()
    }
}

} // verus!
