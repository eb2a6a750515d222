//! The solving engine: elimination passes to a fixpoint, and a
//! backtracking search for when propagation stalls.

use vstd::prelude::*;

use crate::board::{lemma_extends_trans, lemma_justified_trans, lemma_valid_same_values,
    lemma_within_trans, Board, GroupKind};
use crate::counting::{lemma_total_cands_strict, lemma_total_cands_within,
    lemma_undef_count_extends, lemma_undef_count_extends_strict, lemma_undef_count_upto_le,
    no_single_left, total_cands, undef_count};
use crate::geometry::in_bounds;
use crate::propagate::lemma_peer_fixed_to_same;

verus! {

/// The two digit lists are elementwise equal.
fn u8_vec_equal(a: &Vec<u8>, b: &Vec<u8>) -> (r: bool)
    ensures
        r == (a@ =~= b@),
{
    if a.len() != b.len() {
        return false;
    }
    let mut i: usize = 0;
    while i < a.len()
        invariant
            a@.len() == b@.len(),
            i <= a@.len(),
            forall|j: int| 0 <= j < i ==> a@[j] == b@[j],
        decreases a@.len() - i,
    {
        if a[i] != b[i] {
            return false;
        }
        i = i + 1;
    }
    true
}

/// The outcome of a solve: a complete, conflict-free board, or the
/// best-effort state reached when the search ran out of options.
pub enum SolveOutcome {
    /// Every cell is filled and no two peers share a digit.
    Solved(Board),
    /// The search exhausted all branches; the carried board is the state
    /// it stalled in (incomplete, or complete but conflicting).
    Exhausted(Board),
}

impl Board {
    /// Try to resolve or prune the undetermined cell `(row, col)`: naked
    /// single first, then per group (row, column, block) the hidden-single
    /// rule and naked-subset pruning.
    fn eliminate_cell(&mut self, row: usize, col: usize)
        requires
            old(self).wf(),
            row < 9,
            col < 9,
        ensures
            final(self).wf(),
            final(self).candidates_within(*old(self)),
            final(self).extends(*old(self)),
            old(self).no_stale_candidates() ==> final(self).no_stale_candidates(),
            old(self).valid() && old(self).no_stale_candidates() ==> final(self).valid(),
            final(self).fixes_from_candidates_of(*old(self)),
            old(self).cell(row as int, col as int).is_fixed() ==> *final(self) == *old(self),
            undef_count(*final(self)) == undef_count(*old(self)) ==> ({
                &&& forall|r: int, c: int|
                    in_bounds(r, c) && !(r == row && c == col) ==> final(self).cell(r, c) == old(
                        self,
                    ).cell(r, c)
                &&& (final(self).cell(row as int, col as int).value is None ==> final(self).cell(
                    row as int,
                    col as int,
                ).cand_count() != 1)
            }),
    {
        let item = self.get(row, col);
        if item.is_solved() {
            return;
        }
        let cands = item.get_candidates();
        match Self::get_value_if_only_one_candidate(&cands) {
            Some(v) => {
                proof {
                    assert(item.has_candidate(cands@[0] as int));
                }
                self.set_value(row, col, v);
                proof {
                    assert forall|r: int, c: int|
                        in_bounds(r, c) && (#[trigger] old(self).cell(r, c)).value is Some
                        implies self.cell(r, c).value is Some by {
                        if !(r == row && c == col) {
                            assert(self.cell(r, c).value == old(self).cell(r, c).value);
                        }
                    }
                    lemma_undef_count_extends_strict(
                        *old(self),
                        *self,
                        row as int,
                        col as int,
                        81,
                    );
                    assert forall|r: int, c: int|
                        in_bounds(r, c) && old(self).cell(r, c).value is None && (
                        #[trigger] self.cell(r, c)).value is Some implies old(self).cell(
                        r,
                        c,
                    ).has_candidate(self.cell(r, c).fixed_value() as int) by {
                        if r == row && c == col {
                            assert(self.cell(r, c).value == Some(v));
                        }
                    }
                    if old(self).valid() && old(self).no_stale_candidates() {
                        assert(!old(self).peer_fixed_to(row as int, col as int, v));
                        assert(self.valid());
                    }
                }
                return;
            },
            None => {},
        }
        let mut k: usize = 0;
        while k < 3
            invariant
                row < 9,
                col < 9,
                self.wf(),
                self.cell(row as int, col as int).value is None,
                old(self).cell(row as int, col as int).value is None,
                self.candidates_within(*old(self)),
                self.extends(*old(self)),
                old(self).no_stale_candidates() ==> self.no_stale_candidates(),
                old(self).valid() && old(self).no_stale_candidates() ==> self.valid(),
                forall|r: int, c: int|
                    in_bounds(r, c) && !(r == row && c == col) ==> #[trigger] self.cell(r, c)
                        == old(self).cell(r, c),
                self.cell(row as int, col as int).cand_count() != 1,
            decreases 3 - k,
        {
            let kind = if k == 0 {
                GroupKind::Row
            } else if k == 1 {
                GroupKind::Column
            } else {
                GroupKind::Block
            };
            let ids = self.get_group_neighbor_indexes(&kind, row, col);
            // what each neighbor in the group could still take, judged from
            // its own fixed neighbors
            let mut neighbor_candidate_values: Vec<Vec<u8>> = Vec::new();
            let mut j0: usize = 0;
            while j0 < ids.len()
                invariant
                    self.wf(),
                    j0 <= ids@.len(),
                    forall|i: int|
                        0 <= i < ids@.len() ==> (#[trigger] ids@[i]).0 < 9 && ids@[i].1 < 9,
                    forall|i: int, t: int|
                        0 <= i < neighbor_candidate_values@.len() && 0 <= t
                            < neighbor_candidate_values@[i]@.len() ==> 1 <= (
                        #[trigger] neighbor_candidate_values@[i]@[t]) <= 9,
                decreases ids@.len() - j0,
            {
                let (r2, c2) = ids[j0];
                let vals = self.evaluate_candidate_values(r2, c2);
                neighbor_candidate_values.push(vals);
                j0 = j0 + 1;
            }
            let mut union_vals: Vec<u8> = Vec::new();
            let mut d: u8 = 1;
            while d <= 9
                invariant
                    1 <= d <= 10,
                decreases 10 - d,
            {
                let mut found = false;
                let mut t: usize = 0;
                while t < neighbor_candidate_values.len()
                    invariant
                        1 <= d <= 9,
                        t <= neighbor_candidate_values@.len(),
                    decreases neighbor_candidate_values@.len() - t,
                {
                    if crate::strategies::vec_contains(&neighbor_candidate_values[t], d) {
                        found = true;
                    }
                    t = t + 1;
                }
                if found {
                    union_vals.push(d);
                }
                d = d + 1;
            }
            let current = self.get(row, col);
            let current_cands = current.get_candidates();
            let ghost prev = *self;
            match Self::get_value_if_not_candidate_in_neighbors(union_vals, &current_cands) {
                Some(v) => {
                    proof {
                        let i = choose|i: int|
                            0 <= i < current_cands@.len() && current_cands@[i] == v;
                        assert(current.has_candidate(current_cands@[i] as int));
                    }
                    self.set_value(row, col, v);
                    proof {
                        lemma_within_trans(*old(self), prev, *self);
                        assert forall|r: int, c: int|
                            in_bounds(r, c) && (#[trigger] old(self).cell(r, c)).is_fixed()
                            implies self.cell(r, c).value == old(self).cell(r, c).value by {
                            assert(prev.cell(r, c).value == old(self).cell(r, c).value);
                        }
                        assert forall|r: int, c: int|
                            in_bounds(r, c) && (#[trigger] old(self).cell(r, c)).value is Some
                            implies self.cell(r, c).value is Some by {
                            if !(r == row && c == col) {
                                assert(self.cell(r, c).value == old(self).cell(r, c).value);
                            }
                        }
                        lemma_undef_count_extends_strict(
                            *old(self),
                            *self,
                            row as int,
                            col as int,
                            81,
                        );
                        assert forall|r: int, c: int|
                            in_bounds(r, c) && old(self).cell(r, c).value is None && (
                            #[trigger] self.cell(r, c)).value is Some implies old(self).cell(
                            r,
                            c,
                        ).has_candidate(self.cell(r, c).fixed_value() as int) by {
                            if r == row && c == col {
                                assert(self.cell(r, c).value == Some(v));
                                assert(prev.cell(r, c).has_candidate(v as int));
                                assert(prev.cell(r, c).candidates_within(old(self).cell(r, c)));
                            } else {
                                assert(prev.cell(r, c) == old(self).cell(r, c));
                            }
                        }
                        if old(self).valid() && old(self).no_stale_candidates() {
                            assert(prev.valid() && prev.no_stale_candidates());
                            assert(prev.cell(row as int, col as int).has_candidate(v as int));
                            assert(!prev.peer_fixed_to(row as int, col as int, v));
                            assert(self.valid());
                        }
                    }
                    return;
                },
                None => {},
            }
            let mut to_remove: Vec<u8> = Vec::new();
            let mut j: usize = 0;
            while j < neighbor_candidate_values.len()
                invariant
                    forall|i: int| 0 <= i < to_remove@.len() ==> 1 <= #[trigger] to_remove@[i]
                        <= 9,
                    forall|i: int, t: int|
                        0 <= i < neighbor_candidate_values@.len() && 0 <= t
                            < neighbor_candidate_values@[i]@.len() ==> 1 <= (
                        #[trigger] neighbor_candidate_values@[i]@[t]) <= 9,
                    j <= neighbor_candidate_values@.len(),
                decreases neighbor_candidate_values@.len() - j,
            {
                let cj = &neighbor_candidate_values[j];
                if cj.len() > 0 {
                    let mut count: usize = 0;
                    let mut kk: usize = 0;
                    while kk < neighbor_candidate_values.len()
                        invariant
                            count <= kk,
                            kk <= neighbor_candidate_values@.len(),
                        decreases neighbor_candidate_values@.len() - kk,
                    {
                        if u8_vec_equal(cj, &neighbor_candidate_values[kk]) {
                            count = count + 1;
                        }
                        kk = kk + 1;
                    }
                    if count == cj.len() {
                        let mut m: usize = 0;
                        while m < cj.len()
                            invariant
                                m <= cj@.len(),
                                forall|t: int| 0 <= t < cj@.len() ==> 1 <= #[trigger] cj@[t] <= 9,
                                forall|i: int|
                                    0 <= i < to_remove@.len() ==> 1 <= #[trigger] to_remove@[i]
                                        <= 9,
                            decreases cj@.len() - m,
                        {
                            to_remove.push(cj[m]);
                            m = m + 1;
                        }
                    }
                }
                j = j + 1;
            }
            if to_remove.len() > 0 {
                let mut item2 = self.get(row, col);
                let ghost before = *self;
                let mut m: usize = 0;
                while m < to_remove.len()
                    invariant
                        m <= to_remove@.len(),
                        forall|i: int| 0 <= i < to_remove@.len() ==> 1 <= #[trigger] to_remove@[i]
                            <= 9,
                        item2.value == before.cell(row as int, col as int).value,
                        item2.candidates_within(before.cell(row as int, col as int)),
                    decreases to_remove@.len() - m,
                {
                    let ghost item_prev = item2;
                    item2.remove_candidate(to_remove[m]);
                    proof {
                        assert forall|d: int| item2.has_candidate(d) implies before.cell(
                            row as int,
                            col as int,
                        ).has_candidate(d) by {
                            assert(item_prev.has_candidate(d));
                        }
                    }
                    m = m + 1;
                }
                self.put(row, col, item2);
                proof {
                    assert forall|r: int, c: int| in_bounds(r, c) implies (#[trigger] self.cell(
                        r,
                        c,
                    )).candidates_within(old(self).cell(r, c)) by {
                        assert(before.cell(r, c).candidates_within(old(self).cell(r, c)));
                    }
                    assert forall|r: int, c: int| in_bounds(r, c) implies (#[trigger] self.cell(
                        r,
                        c,
                    )).value == before.cell(r, c).value by {}
                    assert forall|r: int, c: int|
                        in_bounds(r, c) && !(r == row && c == col) implies #[trigger] self.cell(
                        r,
                        c,
                    ) == old(self).cell(r, c) by {
                        assert(self.cell(r, c) == before.cell(r, c));
                    }
                    if old(self).no_stale_candidates() {
                        assert forall|r: int, c: int, d: u8|
                            in_bounds(r, c) && (#[trigger] self.cell(r, c).has_candidate(
                                d as int,
                            )) implies !self.peer_fixed_to(r, c, d) by {
                            assert(before.cell(r, c).has_candidate(d as int));
                            assert(!before.peer_fixed_to(r, c, d));
                            lemma_peer_fixed_to_same(before, *self, r, c);
                        }
                    }
                    if old(self).valid() && old(self).no_stale_candidates() {
                        lemma_valid_same_values(before, *self);
                    }
                }
                let current2 = self.get(row, col);
                let current2_cands = current2.get_candidates();
                let ghost mid = *self;
                match Self::get_value_if_only_one_candidate(&current2_cands) {
                    Some(v) => {
                        proof {
                            assert(current2.has_candidate(current2_cands@[0] as int));
                        }
                        self.set_value(row, col, v);
                        proof {
                            lemma_within_trans(*old(self), mid, *self);
                            assert forall|r: int, c: int|
                                in_bounds(r, c) && (#[trigger] old(self).cell(r, c)).is_fixed()
                                implies self.cell(r, c).value == old(self).cell(r, c).value by {
                                assert(mid.cell(r, c).value == old(self).cell(r, c).value);
                            }
                            assert forall|r: int, c: int|
                                in_bounds(r, c) && (#[trigger] old(self).cell(r, c)).value is Some
                                implies self.cell(r, c).value is Some by {
                                if !(r == row && c == col) {
                                    assert(self.cell(r, c).value == old(self).cell(r, c).value);
                                }
                            }
                            lemma_undef_count_extends_strict(
                                *old(self),
                                *self,
                                row as int,
                                col as int,
                                81,
                            );
                            assert forall|r: int, c: int|
                                in_bounds(r, c) && old(self).cell(r, c).value is None && (
                                #[trigger] self.cell(r, c)).value is Some implies old(self).cell(
                                r,
                                c,
                            ).has_candidate(self.cell(r, c).fixed_value() as int) by {
                                if r == row && c == col {
                                    assert(self.cell(r, c).value == Some(v));
                                    assert(mid.cell(r, c).has_candidate(v as int));
                                    assert(mid.cell(r, c).candidates_within(
                                        old(self).cell(r, c),
                                    ));
                                } else {
                                    assert(mid.cell(r, c) == old(self).cell(r, c));
                                }
                            }
                            if old(self).valid() && old(self).no_stale_candidates() {
                                assert(mid.valid() && mid.no_stale_candidates());
                                assert(mid.cell(row as int, col as int).has_candidate(v as int));
                                assert(!mid.peer_fixed_to(row as int, col as int, v));
                                assert(self.valid());
                            }
                        }
                        return;
                    },
                    None => {},
                }
            }
            k = k + 1;
        }
    }

    /// Run elimination passes over the undetermined cells until a full
    /// pass fixes nothing (a fixpoint), refreshing all candidates first.
    fn propagate_and_eliminate(&mut self)
        requires
            old(self).wf(),
        ensures
            final(self).wf(),
            final(self).candidates_within(*old(self)),
            final(self).extends(*old(self)),
            final(self).no_stale_candidates(),
            no_single_left(*final(self)),
            final(self).fixes_from_candidates_of(*old(self)),
            old(self).valid() ==> final(self).valid(),
            old(self).all_fixed() ==> final(self).same_cells(*old(self)),
    {
        self.update_all_candidates();
        proof {
            if old(self).valid() {
                lemma_valid_same_values(*old(self), *self);
            }
            assert forall|r: int, c: int|
                in_bounds(r, c) && old(self).cell(r, c).value is None && (#[trigger] self.cell(
                    r,
                    c,
                )).value is Some implies old(self).cell(r, c).has_candidate(
                self.cell(r, c).fixed_value() as int,
            ) by {
                assert(self.cell(r, c).value == old(self).cell(r, c).value);
            }
            if old(self).all_fixed() {
                assert forall|r: int, c: int| in_bounds(r, c) implies (#[trigger] self.cell(
                    r,
                    c,
                )).same_cell(old(self).cell(r, c)) by {
                    assert(old(self).cell(r, c).wf());
                    assert forall|d: int| self.cell(r, c).has_candidate(d) implies old(self).cell(
                        r,
                        c,
                    ).has_candidate(d) by {}
                }
            }
        }
        let mut undefined = self.get_undefined_indexes();
        let mut prev: usize = 82;
        proof {
            crate::counting::lemma_undef_count_upto_le(*self, 81);
        }
        while undefined.len() > 0 && undefined.len() != prev
            invariant
                self.wf(),
                self.candidates_within(*old(self)),
                self.extends(*old(self)),
                self.no_stale_candidates(),
                old(self).all_fixed() ==> self.same_cells(*old(self)),
                undefined@.len() == undef_count(*self),
                forall|i: int|
                    0 <= i < undefined@.len() ==> in_bounds(
                        (#[trigger] undefined@[i]).0 as int,
                        undefined@[i].1 as int,
                    ) && self.cell(undefined@[i].0 as int, undefined@[i].1 as int).value is None,
                forall|i: int, j: int|
                    0 <= i < j < undefined@.len() ==> (#[trigger] undefined@[i]).0 * 9
                        + undefined@[i].1 < (#[trigger] undefined@[j]).0 * 9 + undefined@[j].1,
                forall|r2: int, c2: int|
                    in_bounds(r2, c2) && (#[trigger] self.cell(r2, c2)).value is None ==> exists|
                        i: int,
                    |
                        0 <= i < undefined@.len() && (#[trigger] undefined@[i]).0 == r2
                            && undefined@[i].1 == c2,
                undef_count(*self) <= prev,
                prev <= 82,
                undef_count(*self) == prev ==> no_single_left(*self),
                self.fixes_from_candidates_of(*old(self)),
                old(self).valid() ==> self.valid(),
            decreases prev,
        {
            prev = undefined.len();
            let ghost pass_start = *self;
            proof {
                assert(forall|r2: int, c2: int|
                    in_bounds(r2, c2) && (#[trigger] pass_start.cell(r2, c2)).value is None
                        ==> exists|i: int|
                        0 <= i < undefined@.len() && (#[trigger] undefined@[i]).0 == r2
                            && undefined@[i].1 == c2);
            }
            let mut idx: usize = 0;
            while idx < undefined.len()
                invariant
                    self.wf(),
                    self.candidates_within(*old(self)),
                    self.extends(*old(self)),
                    self.extends(pass_start),
                    self.no_stale_candidates(),
                    old(self).all_fixed() ==> self.same_cells(*old(self)),
                    idx <= undefined@.len(),
                    forall|i: int|
                        0 <= i < undefined@.len() ==> in_bounds(
                            (#[trigger] undefined@[i]).0 as int,
                            undefined@[i].1 as int,
                        ) && pass_start.cell(
                            undefined@[i].0 as int,
                            undefined@[i].1 as int,
                        ).value is None,
                    forall|i: int, j: int|
                        0 <= i < j < undefined@.len() ==> (#[trigger] undefined@[i]).0 * 9
                            + undefined@[i].1 < (#[trigger] undefined@[j]).0 * 9 + undefined@[j].1,
                    undef_count(pass_start) == undefined@.len(),
                    self.fixes_from_candidates_of(*old(self)),
                    old(self).valid() ==> self.valid(),
                    undef_count(*self) <= undef_count(pass_start),
                    undef_count(*self) == undef_count(pass_start) ==> forall|i: int|
                        0 <= i < idx ==> ((#[trigger] self.cell(
                            undefined@[i].0 as int,
                            undefined@[i].1 as int,
                        )).value is None ==> self.cell(
                            undefined@[i].0 as int,
                            undefined@[i].1 as int,
                        ).cand_count() != 1),
                decreases undefined@.len() - idx,
            {
                let (r2, c2) = undefined[idx];
                let ghost step_prev = *self;
                self.eliminate_cell(r2, c2);
                proof {
                    lemma_within_trans(*old(self), step_prev, *self);
                    lemma_extends_trans(*old(self), step_prev, *self);
                    lemma_extends_trans(pass_start, step_prev, *self);
                    lemma_justified_trans(*old(self), step_prev, *self);
                    if old(self).all_fixed() {
                        assert(step_prev.cell(r2 as int, c2 as int).same_cell(old(self).cell(
                            r2 as int,
                            c2 as int,
                        )));
                        assert(step_prev.cell(r2 as int, c2 as int).is_fixed());
                        assert(*self == step_prev);
                    }
                    assert forall|r3: int, c3: int|
                        in_bounds(r3, c3) && (#[trigger] step_prev.cell(r3, c3)).value is Some
                        implies self.cell(r3, c3).value is Some by {
                        assert(self.cell(r3, c3).value == step_prev.cell(r3, c3).value);
                    }
                    lemma_undef_count_extends(step_prev, *self, 81);
                    if undef_count(*self) == undef_count(pass_start) {
                        assert(undef_count(step_prev) == undef_count(pass_start));
                        assert(undef_count(*self) == undef_count(step_prev));
                        assert forall|i: int|
                            0 <= i < idx + 1 implies ((#[trigger] self.cell(
                            undefined@[i].0 as int,
                            undefined@[i].1 as int,
                        )).value is None ==> self.cell(
                            undefined@[i].0 as int,
                            undefined@[i].1 as int,
                        ).cand_count() != 1) by {
                            let ri = undefined@[i].0 as int;
                            let ci = undefined@[i].1 as int;
                            if i < idx {
                                assert(undefined@[i].0 * 9 + undefined@[i].1 < undefined@[
                                    idx as int].0 * 9 + undefined@[idx as int].1);
                                assert(!(ri == r2 && ci == c2));
                                assert(self.cell(ri, ci) == step_prev.cell(ri, ci));
                            }
                        }
                    }
                }
                idx = idx + 1;
            }
            proof {
                lemma_undef_count_extends(pass_start, *self, 81);
                lemma_undef_count_upto_le(*self, 81);
                if undef_count(*self) == prev {
                    assert forall|r2: int, c2: int|
                        in_bounds(r2, c2) && (#[trigger] self.cell(r2, c2)).value is None
                        implies self.cell(r2, c2).cand_count() != 1 by {
                        assert(pass_start.cell(r2, c2).value is None) by {
                            if pass_start.cell(r2, c2).value is Some {
                                assert(self.cell(r2, c2).value == pass_start.cell(r2, c2).value);
                            }
                        }
                        let i = choose|i: int|
                            0 <= i < undefined@.len() && (#[trigger] undefined@[i]).0 == r2
                                && undefined@[i].1 == c2;
                        assert(self.cell(
                            undefined@[i].0 as int,
                            undefined@[i].1 as int,
                        ).value is None);
                    }
                    assert(no_single_left(*self));
                }
            }
            undefined = self.get_undefined_indexes();
        }
        proof {
            if undefined@.len() == 0 {
                assert forall|r2: int, c2: int|
                    in_bounds(r2, c2) && (#[trigger] final(self).cell(r2, c2)).value is None
                    implies final(self).cell(r2, c2).cand_count() != 1 by {
                    assert(exists|i: int|
                        0 <= i < undefined@.len() && (#[trigger] undefined@[i]).0 == r2
                            && undefined@[i].1 == c2);
                    assert(false);
                }
            }
        }
    }

    /// Propagation and elimination alone, run to a fixpoint on a working
    /// copy: the caller's board is never changed. The result may be left
    /// incomplete when the rules stall.
    pub fn solve_naive_implementation(&self) -> (r: Board)
        requires
            self.wf(),
        ensures
            r.wf(),
            r.candidates_within(*self),
            r.extends(*self),
            r.no_stale_candidates(),
            no_single_left(r),
            r.fixes_from_candidates_of(*self),
            self.valid() ==> r.valid(),
            self.all_fixed() ==> r.same_cells(*self),
    {
        let mut output = Board::new(self.array);
        proof {
            assert(output == *self);
        }
        output.propagate_and_eliminate();
        output
    }

    /// The whole solve procedure on an owned board: propagation and
    /// elimination to a fixpoint, then guessing. When stalled, each
    /// remaining candidate of each undetermined cell is dropped in turn
    /// from a copy, which is solved recursively; the first complete and
    /// conflict-free board wins. With every branch exhausted, the stalled
    /// state is returned as-is.
    fn search(self) -> (r: Board)
        requires
            self.wf(),
        ensures
            r.wf(),
            r.candidates_within(self),
            r.extends(self),
            r.no_stale_candidates(),
            no_single_left(r),
            r.fixes_from_candidates_of(self),
            self.valid() ==> r.valid(),
            self.all_fixed() ==> r.same_cells(self),
        decreases total_cands(self),
    {
        let mut work = self;
        work.propagate_and_eliminate();
        proof {
            lemma_total_cands_within(work, self, 81);
        }
        if work.is_fully_solved() {
            return work;
        }
        proof {
            if self.all_fixed() {
                assert forall|r: int, c: int| in_bounds(r, c) implies (#[trigger] work.cell(
                    r,
                    c,
                )).is_fixed() by {
                    assert(work.cell(r, c).same_cell(self.cell(r, c)));
                }
            }
            assert(!self.all_fixed());
        }
        let undefined = work.get_undefined_indexes();
        let mut idx: usize = 0;
        while idx < undefined.len()
            invariant
                work.wf(),
                work.candidates_within(self),
                work.extends(self),
                work.no_stale_candidates(),
                work.fixes_from_candidates_of(self),
                self.valid() ==> work.valid(),
                total_cands(work) <= total_cands(self),
                idx <= undefined@.len(),
                forall|i: int|
                    0 <= i < undefined@.len() ==> in_bounds(
                        (#[trigger] undefined@[i]).0 as int,
                        undefined@[i].1 as int,
                    ) && work.cell(undefined@[i].0 as int, undefined@[i].1 as int).value is None,
                !self.all_fixed(),
            decreases undefined@.len() - idx,
        {
            let (r2, c2) = undefined[idx];
            let cands = work.get(r2, c2).get_candidates();
            let mut vi: usize = 0;
            while vi < cands.len()
                invariant
                    work.wf(),
                    work.candidates_within(self),
                    work.extends(self),
                    work.no_stale_candidates(),
                    work.fixes_from_candidates_of(self),
                    self.valid() ==> work.valid(),
                    total_cands(work) <= total_cands(self),
                    r2 < 9,
                    c2 < 9,
                    work.cell(r2 as int, c2 as int).value is None,
                    vi <= cands@.len(),
                    forall|i: int|
                        0 <= i < cands@.len() ==> work.cell(r2 as int, c2 as int).has_candidate(
                            #[trigger] cands@[i] as int,
                        ),
                    !self.all_fixed(),
                decreases cands@.len() - vi,
            {
                let v = cands[vi];
                let mut candidate_board = work;
                let mut item = candidate_board.get(r2, c2);
                item.remove_candidate(v);
                candidate_board.put(r2, c2, item);
                proof {
                    assert forall|r: int, c: int| in_bounds(r, c) implies (
                    #[trigger] candidate_board.cell(r, c)).candidates_within(work.cell(r, c)) by {}
                    assert(candidate_board.wf());
                    lemma_total_cands_strict(
                        candidate_board,
                        work,
                        r2 as int,
                        c2 as int,
                        v as int,
                        81,
                    );
                }
                let result = candidate_board.search();
                if result.is_fully_solved() {
                    if result.is_valid() {
                        proof {
                            lemma_extends_trans(work, candidate_board, result);
                            lemma_extends_trans(self, work, result);
                            lemma_within_trans(work, candidate_board, result);
                            lemma_within_trans(self, work, result);
                            assert forall|r3: int, c3: int|
                                in_bounds(r3, c3) && work.cell(r3, c3).value is None && (
                                #[trigger] candidate_board.cell(r3, c3)).value is Some
                                implies work.cell(r3, c3).has_candidate(
                                candidate_board.cell(r3, c3).fixed_value() as int,
                            ) by {
                                assert(candidate_board.cell(r3, c3).value == work.cell(
                                    r3,
                                    c3,
                                ).value);
                            }
                            lemma_justified_trans(work, candidate_board, result);
                            lemma_justified_trans(self, work, result);
                            if self.valid() {
                                lemma_valid_same_values(work, candidate_board);
                            }
                        }
                        return result;
                    }
                }
                vi = vi + 1;
            }
            idx = idx + 1;
        }
        work
    }

    /// Solve the puzzle: propagation, elimination and backtracking on a
    /// working copy of this board. Returns `Solved` exactly when the final
    /// board is complete and conflict-free; otherwise the stalled board
    /// comes back as `Exhausted`.
    pub fn solve(&self) -> (r: SolveOutcome)
        requires
            self.wf(),
        ensures
            match r {
                SolveOutcome::Solved(b) => b.wf() && b.all_fixed() && b.valid() && b.extends(
                    *self,
                ) && b.candidates_within(*self) && b.no_stale_candidates()
                    && b.fixes_from_candidates_of(*self),
                SolveOutcome::Exhausted(b) => b.wf() && !(b.all_fixed() && b.valid())
                    && b.extends(*self) && b.candidates_within(*self) && b.no_stale_candidates()
                    && no_single_left(b) && b.fixes_from_candidates_of(*self),
            },
            self.all_fixed() ==> match r {
                SolveOutcome::Solved(b) => b.same_cells(*self),
                SolveOutcome::Exhausted(b) => b.same_cells(*self),
            },
            self.all_fixed() && self.valid() ==> r is Solved,
            self.valid() ==> match r {
                SolveOutcome::Solved(_) => true,
                SolveOutcome::Exhausted(b) => b.valid() && !b.all_fixed(),
            },
    {
        let work = Board::new(self.array);
        proof {
            assert(work == *self);
        }
        let result = work.search();
        let complete = result.is_fully_solved();
        let conflict_free = result.is_valid();
        if complete && conflict_free {
            SolveOutcome::Solved(result)
        } else {
            proof {
                if self.all_fixed() && self.valid() {
                    assert forall|r: int, c: int| in_bounds(r, c) implies (#[trigger] result.cell(
                        r,
                        c,
                    )).value == self.cell(r, c).value by {
                        assert(result.cell(r, c).same_cell(self.cell(r, c)));
                    }
                    assert forall|r: int, c: int| in_bounds(r, c) implies (#[trigger] result.cell(
                        r,
                        c,
                    )).is_fixed() by {}
                    lemma_valid_same_values(*self, result);
                    assert(false);
                }
            }
            SolveOutcome::Exhausted(result)
        }
    }
}

} // verus!
