//! Candidate maintenance: keeping candidate sets consistent with the fixed
//! digits, and the cascading fix of cells left with a single candidate.

use vstd::prelude::*;

use crate::board::{is_neighbor_list, lemma_neighbor_list_complete, lemma_neighbor_list_entries,
    Board};
use crate::cell::BoardItem;
use crate::counting::{lemma_cand_count_same, lemma_undef_count_fix, undef_count};
use crate::geometry::{in_bounds, is_peer};

verus! {

/// Some cell among the first `n` of the list is fixed to the digit `d`.
pub open spec fn listed_value(b: Board, nb: Seq<(usize, usize)>, n: int, d: u8) -> bool {
    exists|j: int| 0 <= j < n && b.cell((#[trigger] nb[j]).0 as int, nb[j].1 as int).value == Some(d)
}

proof fn lemma_listed_value_step(b: Board, nb: Seq<(usize, usize)>, n: int, d: u8)
    requires
        0 <= n < nb.len(),
    ensures
        listed_value(b, nb, n + 1, d) <==> (listed_value(b, nb, n, d) || b.cell(
            nb[n].0 as int,
            nb[n].1 as int,
        ).value == Some(d)),
{
    if listed_value(b, nb, n + 1, d) {
        let j = choose|j: int|
            0 <= j < n + 1 && b.cell((#[trigger] nb[j]).0 as int, nb[j].1 as int).value == Some(d);
        if j < n {
            assert(listed_value(b, nb, n, d));
        }
    }
    if listed_value(b, nb, n, d) {
        let j = choose|j: int|
            0 <= j < n && b.cell((#[trigger] nb[j]).0 as int, nb[j].1 as int).value == Some(d);
        assert(b.cell((nb[j]).0 as int, nb[j].1 as int).value == Some(d));
        assert(listed_value(b, nb, n + 1, d));
    }
}

/// A pending cascade entry: a position and the digit to fix there.
pub open spec fn valid_fix(e: (usize, usize, u8)) -> bool {
    e.0 < 9 && e.1 < 9 && 1 <= e.2 <= 9
}

/// Two boards with the same digits everywhere see the same fixed peers.
pub proof fn lemma_peer_fixed_to_same(a: Board, b: Board, row: int, col: int)
    requires
        forall|r: int, c: int| in_bounds(r, c) ==> (#[trigger] a.cell(r, c)).value == b.cell(
            r,
            c,
        ).value,
    ensures
        forall|d: u8| #[trigger] a.peer_fixed_to(row, col, d) == b.peer_fixed_to(row, col, d),
{
    assert forall|d: u8| #[trigger] a.peer_fixed_to(row, col, d) == b.peer_fixed_to(
        row,
        col,
        d,
    ) by {
        if a.peer_fixed_to(row, col, d) {
            let (r2, c2) = choose|r2: int, c2: int|
                #[trigger] is_peer(row, col, r2, c2) && a.cell(r2, c2).value == Some(d);
            assert(b.cell(r2, c2).value == Some(d));
            assert(b.peer_fixed_to(row, col, d));
        }
        if b.peer_fixed_to(row, col, d) {
            let (r2, c2) = choose|r2: int, c2: int|
                #[trigger] is_peer(row, col, r2, c2) && b.cell(r2, c2).value == Some(d);
            assert(a.cell(r2, c2).value == Some(d));
            assert(a.peer_fixed_to(row, col, d));
        }
    }
}

/// A board that only dropped candidates already held by fixed peers still
/// admits every assignment the old board admitted.
proof fn lemma_admits_after_removal(a: Board, b: Board, t: Board)
    requires
        a.admits(t),
        forall|r: int, c: int| in_bounds(r, c) ==> (#[trigger] b.cell(r, c)).value == a.cell(
            r,
            c,
        ).value,
        forall|r: int, c: int, d: u8|
            in_bounds(r, c) && a.cell(r, c).has_candidate(d as int) && !(#[trigger] b.cell(
                r,
                c,
            ).has_candidate(d as int)) ==> a.peer_fixed_to(r, c, d),
    ensures
        b.admits(t),
{
    assert forall|r: int, c: int|
        in_bounds(r, c) && (#[trigger] b.cell(r, c)).value is None implies b.cell(
        r,
        c,
    ).has_candidate(t.cell(r, c).fixed_value() as int) by {
        let d = t.cell(r, c).fixed_value();
        assert(a.cell(r, c).value is None);
        assert(a.cell(r, c).has_candidate(d as int));
        assert(1 <= d <= 9);
        if !b.cell(r, c).has_candidate(d as int) {
            assert(a.peer_fixed_to(r, c, d));
        }
        if a.peer_fixed_to(r, c, d) {
            let (r2, c2) = choose|r2: int, c2: int|
                #[trigger] is_peer(r, c, r2, c2) && a.cell(r2, c2).value == Some(d);
            assert(t.cell(r2, c2).value == Some(d));
            assert(t.cell(r, c).value == Some(d));
            assert(t.peer_fixed_to(r, c, d));
            assert(!t.cell_valid(r, c));
            assert(false);
        }
        assert(b.cell(r, c).has_candidate(d as int));
    }
}

impl Board {
    /// `start` with every digit fixed among the neighbors of `(row, col)`
    /// removed from its candidates.
    fn minus_fixed_neighbor_values(&self, row: usize, col: usize, start: BoardItem) -> (r:
        BoardItem)
        requires
            self.wf(),
            row < 9,
            col < 9,
        ensures
            r.value == start.value,
            forall|d: u8|
                #[trigger] r.has_candidate(d as int) <==> (start.has_candidate(d as int)
                    && !self.peer_fixed_to(row as int, col as int, d)),
    {
        let nb = self.get_all_neighbor_indexes(row, col);
        proof {
            lemma_neighbor_list_entries(nb@, row as int, col as int);
        }
        let mut item = start;
        let mut n: usize = 0;
        while n < 24
            invariant
                self.wf(),
                row < 9,
                col < 9,
                n <= 24,
                nb@.len() == 24,
                is_neighbor_list(nb@, row as int, col as int),
                forall|j: int|
                    0 <= j < 24 ==> is_peer(
                        row as int,
                        col as int,
                        (#[trigger] nb@[j]).0 as int,
                        nb@[j].1 as int,
                    ),
                item.value == start.value,
                forall|d: u8|
                    #[trigger] item.has_candidate(d as int) <==> (start.has_candidate(d as int)
                        && !listed_value(*self, nb@, n as int, d)),
            decreases 24 - n,
        {
            let (r2, c2) = nb[n];
            let peer_cell = self.get(r2, c2);
            proof {
                lemma_listed_value_step(*self, nb@, n as int, 1u8);
            }
            let ghost pre = item;
            match peer_cell.value {
                Some(v) => {
                    proof {
                        assert(self.cell(r2 as int, c2 as int).wf());
                    }
                    item.remove_candidate(v);
                    proof {
                        assert forall|d: u8| #[trigger] item.has_candidate(d as int) <==> (
                        start.has_candidate(d as int) && !listed_value(
                            *self,
                            nb@,
                            n + 1,
                            d,
                        )) by {
                            lemma_listed_value_step(*self, nb@, n as int, d);
                        }
                    }
                },
                None => {
                    proof {
                        assert forall|d: u8| #[trigger] item.has_candidate(d as int) <==> (
                        start.has_candidate(d as int) && !listed_value(
                            *self,
                            nb@,
                            n + 1,
                            d,
                        )) by {
                            lemma_listed_value_step(*self, nb@, n as int, d);
                        }
                    }
                },
            }
            n = n + 1;
        }
        proof {
            assert forall|d: u8| #[trigger] item.has_candidate(d as int) <==> (start.has_candidate(
                d as int,
            ) && !self.peer_fixed_to(row as int, col as int, d)) by {
                if listed_value(*self, nb@, 24, d) {
                    let j = choose|j: int|
                        0 <= j < 24 && self.cell(
                            (#[trigger] nb@[j]).0 as int,
                            nb@[j].1 as int,
                        ).value == Some(d);
                    assert(is_peer(row as int, col as int, nb@[j].0 as int, nb@[j].1 as int));
                    assert(self.peer_fixed_to(row as int, col as int, d));
                }
                if self.peer_fixed_to(row as int, col as int, d) {
                    let (r2, c2) = choose|r2: int, c2: int|
                        #[trigger] is_peer(row as int, col as int, r2, c2) && self.cell(
                            r2,
                            c2,
                        ).value == Some(d);
                    lemma_neighbor_list_complete(nb@, row as int, col as int, r2, c2);
                    assert(listed_value(*self, nb@, 24, d));
                }
            }
        }
        item
    }

    /// Remove from the candidates of `(row, col)` every digit a fixed
    /// neighbor already holds.
    pub fn update_candidates(&mut self, row: usize, col: usize)
        requires
            old(self).wf(),
            row < 9,
            col < 9,
        ensures
            final(self).wf(),
            forall|r: int, c: int|
                in_bounds(r, c) && !(r == row && c == col) ==> final(self).cell(r, c) == old(
                    self,
                ).cell(r, c),
            final(self).cell(row as int, col as int).value == old(self).cell(
                row as int,
                col as int,
            ).value,
            forall|d: u8|
                #[trigger] final(self).cell(row as int, col as int).has_candidate(d as int) <==> (
                old(self).cell(row as int, col as int).has_candidate(d as int) && !old(
                    self,
                ).peer_fixed_to(row as int, col as int, d)),
            forall|t: Board| old(self).admits(t) ==> #[trigger] final(self).admits(t),
    {
        let start = self.get(row, col);
        let item = self.minus_fixed_neighbor_values(row, col, start);
        self.put(row, col, item);
        proof {
            assert(final(self).cell(row as int, col as int).wf());
            assert forall|t: Board| old(self).admits(t) implies #[trigger] final(self).admits(
                t,
            ) by {
                lemma_admits_after_removal(*old(self), *final(self), t);
            }
        }
    }

    /// Recompute every cell's candidates from the digits currently fixed
    /// among its neighbors.
    pub fn update_all_candidates(&mut self)
        requires
            old(self).wf(),
        ensures
            final(self).wf(),
            forall|r: int, c: int|
                in_bounds(r, c) ==> (#[trigger] final(self).cell(r, c)).value == old(self).cell(
                    r,
                    c,
                ).value,
            forall|r: int, c: int, d: u8|
                in_bounds(r, c) ==> ((#[trigger] final(self).cell(r, c).has_candidate(d as int))
                    <==> (old(self).cell(r, c).has_candidate(d as int) && !old(
                    self,
                ).peer_fixed_to(r, c, d))),
            final(self).candidates_within(*old(self)),
            final(self).no_stale_candidates(),
            forall|t: Board| old(self).admits(t) ==> #[trigger] final(self).admits(t),
    {
        let mut n: usize = 0;
        while n < 81
            invariant
                self.wf(),
                n <= 81,
                forall|r: int, c: int|
                    in_bounds(r, c) ==> (#[trigger] self.cell(r, c)).value == old(self).cell(
                        r,
                        c,
                    ).value,
                forall|r: int, c: int, d: u8|
                    in_bounds(r, c) && r * 9 + c < n ==> ((#[trigger] self.cell(r, c).has_candidate(
                        d as int,
                    )) <==> (old(self).cell(r, c).has_candidate(d as int) && !old(
                        self,
                    ).peer_fixed_to(r, c, d))),
                forall|r: int, c: int|
                    in_bounds(r, c) && r * 9 + c >= n ==> (#[trigger] self.cell(r, c)) == old(
                        self,
                    ).cell(r, c),
            decreases 81 - n,
        {
            let row = n / 9;
            let col = n % 9;
            let ghost prev = *self;
            self.update_candidates(row, col);
            proof {
                lemma_peer_fixed_to_same(prev, *old(self), row as int, col as int);
                assert(prev.cell(row as int, col as int) == old(self).cell(
                    row as int,
                    col as int,
                ));
                assert forall|r: int, c: int|
                    in_bounds(r, c) && r * 9 + c >= n + 1 implies (#[trigger] self.cell(r, c))
                    == old(self).cell(r, c) by {
                    assert(!(r == row && c == col)) by (nonlinear_arith)
                        requires
                            0 <= r < 9,
                            0 <= c < 9,
                            row == n / 9,
                            col == n % 9,
                            n < 81,
                            r * 9 + c >= n + 1,
                    ;
                }
                assert forall|r: int, c: int, d: u8|
                    in_bounds(r, c) && r * 9 + c < n + 1 implies ((#[trigger] self.cell(
                    r,
                    c,
                ).has_candidate(d as int)) <==> (old(self).cell(r, c).has_candidate(d as int)
                    && !old(self).peer_fixed_to(r, c, d))) by {
                    if r == row && c == col {
                    } else {
                        assert(r * 9 + c != n) by (nonlinear_arith)
                            requires
                                0 <= r < 9,
                                0 <= c < 9,
                                row == n / 9,
                                col == n % 9,
                                n < 81,
                                !(r == row && c == col),
                        ;
                        assert(self.cell(r, c) == prev.cell(r, c));
                    }
                }
            }
            n = n + 1;
        }
        proof {
            assert forall|r: int, c: int, d: u8|
                in_bounds(r, c) && (#[trigger] final(self).cell(r, c).has_candidate(d as int))
                implies !final(self).peer_fixed_to(r, c, d) by {
                lemma_peer_fixed_to_same(*old(self), *final(self), r, c);
            }
            assert forall|t: Board| old(self).admits(t) implies #[trigger] final(self).admits(
                t,
            ) by {
                lemma_admits_after_removal(*old(self), *final(self), t);
            }
        }
    }

    /// Fix `(row, col)` to `value` and remove `value` from the candidates
    /// of every neighbor; neighbors left with a single candidate are queued
    /// for the cascade.
    fn fix_one(&mut self, row: usize, col: usize, value: u8, queue: &mut Vec<(usize, usize, u8)>)
        requires
            old(self).wf(),
            row < 9,
            col < 9,
            1 <= value <= 9,
            forall|i: int| 0 <= i < old(queue)@.len() ==> valid_fix(#[trigger] old(queue)@[i]),
        ensures
            final(self).wf(),
            final(self).cell(row as int, col as int).value == Some(value),
            forall|d: int| !final(self).cell(row as int, col as int).has_candidate(d),
            forall|r: int, c: int|
                in_bounds(r, c) && !(r == row && c == col) ==> (#[trigger] final(self).cell(
                    r,
                    c,
                )).value == old(self).cell(r, c).value,
            final(self).candidates_within(*old(self)),
            forall|r: int, c: int, d: int|
                in_bounds(r, c) && !(r == row && c == col) && d != value
                    ==> (#[trigger] final(self).cell(r, c).has_candidate(d)) == old(self).cell(
                    r,
                    c,
                ).has_candidate(d),
            forall|r2: int, c2: int|
                is_peer(row as int, col as int, r2, c2) ==> !(#[trigger] final(self).cell(
                    r2,
                    c2,
                )).has_candidate(value as int),
            old(queue)@.len() <= final(queue)@.len() <= old(queue)@.len() + 24,
            forall|i: int| 0 <= i < old(queue)@.len() ==> final(queue)@[i] == old(queue)@[i],
            forall|i: int| 0 <= i < final(queue)@.len() ==> valid_fix(#[trigger] final(queue)@[i]),
            forall|i: int|
                old(queue)@.len() <= i < final(queue)@.len() ==> old(self).cell(
                    (#[trigger] final(queue)@[i]).0 as int,
                    final(queue)@[i].1 as int,
                ).has_candidate(final(queue)@[i].2 as int),
            forall|i: int|
                old(queue)@.len() <= i < final(queue)@.len() ==> final(self).cell(
                    (#[trigger] final(queue)@[i]).0 as int,
                    final(queue)@[i].1 as int,
                ).has_candidate(final(queue)@[i].2 as int),
            forall|i: int, d: int|
                old(queue)@.len() <= i < final(queue)@.len() && (#[trigger] final(self).cell(
                    final(queue)@[i].0 as int,
                    final(queue)@[i].1 as int,
                ).has_candidate(d)) ==> d == final(queue)@[i].2 as int,
            forall|t: Board|
                old(self).admits(t) && t.cell(row as int, col as int).value == Some(value)
                    ==> #[trigger] final(self).admits(t),
            forall|r3: int, c3: int|
                in_bounds(r3, c3) && (#[trigger] final(self).cell(r3, c3)).value is None
                    && !final(self).cell(r3, c3).same_cell(old(self).cell(r3, c3))
                    && final(self).cell(r3, c3).cand_count() == 1 ==> exists|i: int|
                    old(queue)@.len() <= i < final(queue)@.len()
                        && (#[trigger] final(queue)@[i]).0 == r3 && final(queue)@[i].1 == c3
                        && final(self).cell(r3, c3).has_candidate(final(queue)@[i].2 as int),
            old(self).no_stale_candidates() ==> final(self).no_stale_candidates(),
            old(self).valid() && !old(self).peer_fixed_to(row as int, col as int, value)
                ==> final(self).valid(),
    {
        let mut item = self.get(row, col);
        item.set_value(value);
        self.put(row, col, item);
        let ghost mid = *self;
        let nb = self.get_all_neighbor_indexes(row, col);
        proof {
            lemma_neighbor_list_entries(nb@, row as int, col as int);
        }
        let ghost queue0 = queue@;
        proof {
            assert forall|t: Board|
                old(self).admits(t) && t.cell(row as int, col as int).value == Some(value)
                implies #[trigger] self.admits(t) by {
                assert forall|r3: int, c3: int|
                    in_bounds(r3, c3) && (#[trigger] self.cell(r3, c3)).value is None
                    implies self.cell(r3, c3).has_candidate(
                    t.cell(r3, c3).fixed_value() as int,
                ) by {
                    assert(self.cell(r3, c3) == old(self).cell(r3, c3));
                }
            }
        }
        let mut n: usize = 0;
        while n < 24
            invariant
                row < 9,
                col < 9,
                1 <= value <= 9,
                n <= 24,
                nb@.len() == 24,
                is_neighbor_list(nb@, row as int, col as int),
                forall|j: int|
                    0 <= j < 24 ==> is_peer(
                        row as int,
                        col as int,
                        (#[trigger] nb@[j]).0 as int,
                        nb@[j].1 as int,
                    ),
                self.wf(),
                mid.cell(row as int, col as int).value == Some(value),
                forall|d: int| !mid.cell(row as int, col as int).has_candidate(d),
                self.cell(row as int, col as int) == mid.cell(row as int, col as int),
                forall|r: int, c: int|
                    in_bounds(r, c) ==> (#[trigger] self.cell(r, c)).value == mid.cell(r, c).value,
                forall|r: int, c: int, d: int|
                    in_bounds(r, c) && d != value ==> (#[trigger] self.cell(r, c).has_candidate(d))
                        == mid.cell(r, c).has_candidate(d),
                self.candidates_within(mid),
                forall|j: int|
                    0 <= j < n ==> !self.cell(
                        (#[trigger] nb@[j]).0 as int,
                        nb@[j].1 as int,
                    ).has_candidate(value as int),
                queue@.len() <= queue0.len() + n,
                queue0.len() <= queue@.len(),
                forall|i: int| 0 <= i < queue0.len() ==> #[trigger] queue@[i] == queue0[i],
                forall|i: int| 0 <= i < queue@.len() ==> valid_fix(#[trigger] queue@[i]),
                forall|i: int|
                    queue0.len() <= i < queue@.len() ==> old(self).cell(
                        (#[trigger] queue@[i]).0 as int,
                        queue@[i].1 as int,
                    ).has_candidate(queue@[i].2 as int),
                forall|i: int|
                    queue0.len() <= i < queue@.len() ==> (#[trigger] queue@[i]).2 != value
                        && self.cell(queue@[i].0 as int, queue@[i].1 as int).has_candidate(
                        queue@[i].2 as int,
                    ),
                forall|i: int, d: int|
                    queue0.len() <= i < queue@.len() && (#[trigger] self.cell(
                        queue@[i].0 as int,
                        queue@[i].1 as int,
                    ).has_candidate(d)) ==> d == queue@[i].2 as int,
                forall|t: Board|
                    old(self).admits(t) && t.cell(row as int, col as int).value == Some(value)
                        ==> #[trigger] self.admits(t),
                forall|r3: int, c3: int|
                    in_bounds(r3, c3) && (#[trigger] self.cell(r3, c3)).value is None
                        && !self.cell(r3, c3).same_cell(old(self).cell(r3, c3)) && self.cell(
                        r3,
                        c3,
                    ).cand_count() == 1 ==> exists|i: int|
                        queue0.len() <= i < queue@.len() && (#[trigger] queue@[i]).0 == r3
                            && queue@[i].1 == c3 && self.cell(r3, c3).has_candidate(
                            queue@[i].2 as int,
                        ),
                forall|r: int, c: int|
                    in_bounds(r, c) && !(r == row && c == col) ==> #[trigger] mid.cell(r, c)
                        == old(self).cell(r, c),
            decreases 24 - n,
        {
            let (r2, c2) = nb[n];
            proof {
                assert(is_peer(row as int, col as int, nb@[n as int].0 as int, nb@[n as int].1 as int));
            }
            let mut peer_item = self.get(r2, c2);
            let ghost prev = *self;
            let ghost queue_prev = queue@;
            if !peer_item.is_solved() {
                peer_item.remove_candidate(value);
                let cands = peer_item.get_candidates();
                self.put(r2, c2, peer_item);
                if cands.len() == 1 {
                    let d = cands[0];
                    proof {
                        assert(peer_item.has_candidate(cands@[0] as int));
                        assert(prev.cell(r2 as int, c2 as int).has_candidate(d as int));
                        assert(prev.cell(r2 as int, c2 as int).candidates_within(
                            old(self).cell(r2 as int, c2 as int),
                        )) by {
                            assert(prev.cell(r2 as int, c2 as int).candidates_within(
                                mid.cell(r2 as int, c2 as int),
                            ));
                            assert(mid.cell(r2 as int, c2 as int) == old(self).cell(
                                r2 as int,
                                c2 as int,
                            ));
                        }
                        assert(old(self).cell(r2 as int, c2 as int).has_candidate(d as int));
                    }
                    queue.push((r2, c2, d));
                }
                proof {
                    assert forall|r: int, c: int| in_bounds(r, c) implies (#[trigger] self.cell(
                        r,
                        c,
                    )).candidates_within(mid.cell(r, c)) by {
                        assert(prev.cell(r, c).candidates_within(mid.cell(r, c)));
                    }
                    assert forall|t: Board|
                        old(self).admits(t) && t.cell(row as int, col as int).value == Some(
                            value,
                        ) implies #[trigger] self.admits(t) by {
                        assert(prev.admits(t));
                        assert forall|r3: int, c3: int|
                            in_bounds(r3, c3) && (#[trigger] self.cell(r3, c3)).value is None
                            implies self.cell(r3, c3).has_candidate(
                            t.cell(r3, c3).fixed_value() as int,
                        ) by {
                            if r3 == r2 && c3 == c2 {
                                let dd = t.cell(r3, c3).fixed_value();
                                assert(prev.cell(r3, c3).has_candidate(dd as int));
                                if dd == value {
                                    assert(is_peer(
                                        row as int,
                                        col as int,
                                        r2 as int,
                                        c2 as int,
                                    ));
                                    assert(is_peer(r3, c3, row as int, col as int));
                                    assert(t.cell(row as int, col as int).value == Some(value));
                                    assert(t.peer_fixed_to(r3, c3, value));
                                    assert(!t.cell_valid(r3, c3));
                                    assert(false);
                                }
                            } else {
                                assert(self.cell(r3, c3) == prev.cell(r3, c3));
                            }
                        }
                    }
                    assert forall|i: int, d: int|
                        queue0.len() <= i < queue@.len() && (#[trigger] self.cell(
                            queue@[i].0 as int,
                            queue@[i].1 as int,
                        ).has_candidate(d)) implies d == queue@[i].2 as int by {
                        if i < queue_prev.len() {
                            assert(queue@[i] == queue_prev[i]);
                            assert(valid_fix(queue_prev[i]));
                            let (qr, qc) = (queue_prev[i].0 as int, queue_prev[i].1 as int);
                            assert(in_bounds(qr, qc));
                            if qr == r2 && qc == c2 {
                                assert(peer_item.has_candidate(d));
                                assert(prev.cell(qr, qc).has_candidate(d));
                            } else {
                                assert(self.cell(qr, qc) == prev.cell(qr, qc));
                            }
                        } else {
                            assert(queue@[i] == (r2, c2, cands@[0]));
                            assert(1 <= d <= 9);
                            let du = d as u8;
                            assert(peer_item.has_candidate(du as int));
                            assert(cands@.contains(du));
                            let idx = choose|idx: int| 0 <= idx < cands@.len() && cands@[idx] == du;
                            assert(cands@[0] == du);
                        }
                    }
                    assert forall|i: int|
                        queue0.len() <= i < queue@.len() implies (#[trigger] queue@[i]).2 != value
                            && self.cell(queue@[i].0 as int, queue@[i].1 as int).has_candidate(
                            queue@[i].2 as int,
                        ) by {
                        if i < queue_prev.len() {
                            assert(queue@[i] == queue_prev[i]);
                            assert(queue_prev[i].2 != value);
                            assert(prev.cell(
                                queue_prev[i].0 as int,
                                queue_prev[i].1 as int,
                            ).has_candidate(queue_prev[i].2 as int));
                            assert(valid_fix(queue_prev[i]));
                            if !(queue_prev[i].0 == r2 && queue_prev[i].1 == c2) {
                                assert(in_bounds(queue_prev[i].0 as int, queue_prev[i].1 as int));
                                assert(self.cell(queue_prev[i].0 as int, queue_prev[i].1 as int)
                                    == prev.cell(queue_prev[i].0 as int, queue_prev[i].1 as int));
                            }
                        } else {
                            assert(queue@[i] == (r2, c2, cands@[0]));
                            assert(peer_item.has_candidate(cands@[0] as int));
                            assert(!peer_item.has_candidate(value as int));
                        }
                    }
                    assert forall|r3: int, c3: int|
                        in_bounds(r3, c3) && (#[trigger] self.cell(r3, c3)).value is None
                            && !self.cell(r3, c3).same_cell(old(self).cell(r3, c3)) && self.cell(
                            r3,
                            c3,
                        ).cand_count() == 1 implies exists|i: int|
                        queue0.len() <= i < queue@.len() && (#[trigger] queue@[i]).0 == r3
                            && queue@[i].1 == c3 && self.cell(r3, c3).has_candidate(
                            queue@[i].2 as int,
                        ) by {
                        if r3 == r2 && c3 == c2 {
                            assert(cands@.len() == 1);
                            let last = queue@.len() - 1;
                            assert(queue@[last].0 == r3 && queue@[last].1 == c3);
                            assert(self.cell(r3, c3).has_candidate(queue@[last].2 as int));
                        } else {
                            assert(self.cell(r3, c3) == prev.cell(r3, c3));
                            let i = choose|i: int|
                                queue0.len() <= i < queue_prev.len() && (
                                #[trigger] queue_prev[i]).0 == r3 && queue_prev[i].1 == c3
                                    && prev.cell(r3, c3).has_candidate(queue_prev[i].2 as int);
                            assert(queue@[i] == queue_prev[i]);
                        }
                    }
                }
            }
            n = n + 1;
        }
        proof {
            assert forall|r2: int, c2: int| is_peer(row as int, col as int, r2, c2) implies !(
            #[trigger] final(self).cell(r2, c2)).has_candidate(value as int) by {
                lemma_neighbor_list_complete(nb@, row as int, col as int, r2, c2);
                let j = choose|j: int|
                    0 <= j < 24 && ((#[trigger] nb@[j]).0 as int, nb@[j].1 as int) == (r2, c2);
                assert(!final(self).cell(nb@[j].0 as int, nb@[j].1 as int).has_candidate(
                    value as int,
                ));
            }
            assert forall|r: int, c: int| in_bounds(r, c) implies (#[trigger] final(self).cell(
                r,
                c,
            )).candidates_within(old(self).cell(r, c)) by {
                assert(final(self).cell(r, c).candidates_within(mid.cell(r, c)));
                assert(mid.cell(r, c).candidates_within(old(self).cell(r, c)));
            }
            if old(self).no_stale_candidates() {
                assert forall|r: int, c: int, d: u8|
                    in_bounds(r, c) && (#[trigger] final(self).cell(r, c).has_candidate(d as int))
                    implies !final(self).peer_fixed_to(r, c, d) by {
                    assert(!(r == row && c == col));
                    assert(old(self).cell(r, c).has_candidate(d as int));
                    assert(!old(self).peer_fixed_to(r, c, d));
                    if final(self).peer_fixed_to(r, c, d) {
                        let (r3, c3) = choose|r3: int, c3: int|
                            #[trigger] is_peer(r, c, r3, c3) && final(self).cell(r3, c3).value
                                == Some(d);
                        if r3 == row && c3 == col {
                            assert(d == value);
                            assert(is_peer(row as int, col as int, r, c));
                            assert(!final(self).cell(r, c).has_candidate(value as int));
                        } else {
                            assert(old(self).cell(r3, c3).value == Some(d));
                            assert(old(self).peer_fixed_to(r, c, d));
                        }
                    }
                }
            }
            if old(self).valid() && !old(self).peer_fixed_to(row as int, col as int, value) {
                assert forall|r: int, c: int| in_bounds(r, c) implies #[trigger] final(self).cell_valid(
                    r,
                    c,
                ) by {
                    if r == row && c == col {
                        if final(self).peer_fixed_to(r, c, value) {
                            let (r3, c3) = choose|r3: int, c3: int|
                                #[trigger] is_peer(r, c, r3, c3) && final(self).cell(
                                    r3,
                                    c3,
                                ).value == Some(value);
                            assert(old(self).cell(r3, c3).value == Some(value));
                            assert(old(self).peer_fixed_to(row as int, col as int, value));
                        }
                    } else if final(self).cell(r, c).is_fixed() {
                        let w = final(self).cell(r, c).fixed_value();
                        assert(old(self).cell(r, c).value == Some(w));
                        assert(old(self).cell_valid(r, c));
                        if final(self).peer_fixed_to(r, c, w) {
                            let (r3, c3) = choose|r3: int, c3: int|
                                #[trigger] is_peer(r, c, r3, c3) && final(self).cell(
                                    r3,
                                    c3,
                                ).value == Some(w);
                            if r3 == row && c3 == col {
                                assert(w == value);
                                assert(is_peer(row as int, col as int, r, c));
                                assert(old(self).peer_fixed_to(row as int, col as int, value));
                            } else {
                                assert(old(self).cell(r3, c3).value == Some(w));
                                assert(old(self).peer_fixed_to(r, c, w));
                            }
                        }
                    }
                }
            }
        }
    }

    /// Fix `(row, col)` to `value`, remove `value` from every neighbor's
    /// candidates, and cascade: whenever a removal leaves an undetermined
    /// cell with exactly one candidate, that cell is fixed in turn.
    pub fn set_value(&mut self, row: usize, col: usize, value: u8)
        requires
            old(self).wf(),
            row < 9,
            col < 9,
            1 <= value <= 9,
        ensures
            final(self).wf(),
            final(self).cell(row as int, col as int).value == Some(value),
            final(self).candidates_within(*old(self)),
            forall|r: int, c: int|
                in_bounds(r, c) && !(r == row && c == col) && (#[trigger] old(self).cell(
                    r,
                    c,
                )).is_fixed() ==> final(self).cell(r, c).value == old(self).cell(r, c).value,
            forall|r2: int, c2: int|
                is_peer(row as int, col as int, r2, c2) ==> !(#[trigger] final(self).cell(
                    r2,
                    c2,
                )).has_candidate(value as int),
            forall|r: int, c: int|
                in_bounds(r, c) && !(r == row && c == col) && old(self).cell(r, c).value is None
                    && (#[trigger] final(self).cell(r, c)).value is Some ==> old(self).cell(
                    r,
                    c,
                ).has_candidate(final(self).cell(r, c).fixed_value() as int),
            old(self).no_stale_candidates() ==> final(self).no_stale_candidates(),
            old(self).valid() && old(self).no_stale_candidates() && !old(self).peer_fixed_to(
                row as int,
                col as int,
                value,
            ) ==> final(self).valid(),
            forall|r3: int, c3: int|
                in_bounds(r3, c3) && (#[trigger] final(self).cell(r3, c3)).value is None
                    && !final(self).cell(r3, c3).same_cell(old(self).cell(r3, c3))
                    ==> final(self).cell(r3, c3).cand_count() != 1,
            forall|t: Board|
                old(self).admits(t) && t.cell(row as int, col as int).value == Some(value)
                    ==> #[trigger] final(self).admits(t),
    {
        let mut queue: Vec<(usize, usize, u8)> = Vec::new();
        self.fix_one(row, col, value, &mut queue);
        while queue.len() > 0
            invariant
                row < 9,
                col < 9,
                1 <= value <= 9,
                self.wf(),
                self.cell(row as int, col as int).value == Some(value),
                self.candidates_within(*old(self)),
                forall|r: int, c: int|
                    in_bounds(r, c) && !(r == row && c == col) && (#[trigger] old(self).cell(
                        r,
                        c,
                    )).is_fixed() ==> self.cell(r, c).value == old(self).cell(r, c).value,
                forall|r2: int, c2: int|
                    is_peer(row as int, col as int, r2, c2) ==> !(#[trigger] self.cell(
                        r2,
                        c2,
                    )).has_candidate(value as int),
                old(self).no_stale_candidates() ==> self.no_stale_candidates(),
                old(self).valid() && old(self).no_stale_candidates() && !old(
                    self,
                ).peer_fixed_to(row as int, col as int, value) ==> self.valid(),
                forall|i: int| 0 <= i < queue@.len() ==> valid_fix(#[trigger] queue@[i]),
                forall|i: int|
                    0 <= i < queue@.len() ==> old(self).cell(
                        (#[trigger] queue@[i]).0 as int,
                        queue@[i].1 as int,
                    ).has_candidate(queue@[i].2 as int),
                forall|r: int, c: int|
                    in_bounds(r, c) && !(r == row && c == col) && old(self).cell(
                        r,
                        c,
                    ).value is None && (#[trigger] self.cell(r, c)).value is Some ==> old(
                        self,
                    ).cell(r, c).has_candidate(self.cell(r, c).fixed_value() as int),
                forall|r3: int, c3: int|
                    in_bounds(r3, c3) && (#[trigger] self.cell(r3, c3)).value is None
                        && !self.cell(r3, c3).same_cell(old(self).cell(r3, c3)) && self.cell(
                        r3,
                        c3,
                    ).cand_count() == 1 ==> exists|i: int|
                        0 <= i < queue@.len() && (#[trigger] queue@[i]).0 == r3 && queue@[i].1
                            == c3 && self.cell(r3, c3).has_candidate(queue@[i].2 as int),
                forall|i: int, d: int|
                    0 <= i < queue@.len() && (#[trigger] self.cell(
                        queue@[i].0 as int,
                        queue@[i].1 as int,
                    ).has_candidate(d)) ==> d == queue@[i].2 as int,
                forall|t: Board|
                    old(self).admits(t) && t.cell(row as int, col as int).value == Some(value)
                        ==> #[trigger] self.admits(t),
            decreases 25 * undef_count(*self) + queue@.len(),
        {
            let ghost queue_pre = queue@;
            let entry = queue.pop().unwrap();
            let (r, c, v) = entry;
            proof {
                assert(entry == queue_pre[queue_pre.len() - 1]);
            }
            let cell_here = self.get(r, c);
            // only fix a queued cell whose single candidate is still there:
            // a cell emptied by a later removal is left alone
            if cell_here.value.is_none() && cell_here.candidate(v) {
                let ghost prev = *self;
                let ghost qlen = queue@.len();
                let ghost queue_popped = queue@;
                proof {
                    assert(prev.candidates_within(*old(self)));
                    assert(forall|i: int|
                        0 <= i < queue_popped.len() ==> old(self).cell(
                            (#[trigger] queue_popped[i]).0 as int,
                            queue_popped[i].1 as int,
                        ).has_candidate(queue_popped[i].2 as int));
                    assert(forall|r3: int, c3: int|
                        in_bounds(r3, c3) && (#[trigger] prev.cell(r3, c3)).value is None
                            && !prev.cell(r3, c3).same_cell(old(self).cell(r3, c3)) && prev.cell(
                            r3,
                            c3,
                        ).cand_count() == 1 ==> exists|i: int|
                            0 <= i < queue_pre.len() && (#[trigger] queue_pre[i]).0 == r3
                                && queue_pre[i].1 == c3 && prev.cell(r3, c3).has_candidate(
                                queue_pre[i].2 as int,
                            ));
                }
                self.fix_one(r, c, v, &mut queue);
                proof {
                    lemma_undef_count_fix(prev, *self, r as int, c as int, 81);
                    assert forall|i: int|
                        0 <= i < queue@.len() implies old(self).cell(
                        (#[trigger] queue@[i]).0 as int,
                        queue@[i].1 as int,
                    ).has_candidate(queue@[i].2 as int) by {
                        if i >= qlen {
                            let (qr, qc) = (queue@[i].0 as int, queue@[i].1 as int);
                            assert(prev.cell(qr, qc).has_candidate(queue@[i].2 as int));
                            assert(prev.cell(qr, qc).candidates_within(old(self).cell(qr, qc)));
                        } else {
                            assert(queue@[i] == queue_popped[i]);
                        }
                    }
                    assert forall|r3: int, c3: int|
                        in_bounds(r3, c3) && !(r3 == row && c3 == col) && old(self).cell(
                            r3,
                            c3,
                        ).value is None && (#[trigger] self.cell(r3, c3)).value is Some
                        implies old(self).cell(r3, c3).has_candidate(
                        self.cell(r3, c3).fixed_value() as int,
                    ) by {
                        if r3 == r && c3 == c {
                            assert(self.cell(r3, c3).value == Some(v));
                            assert(old(self).cell(r3, c3).has_candidate(v as int));
                        } else {
                            assert(self.cell(r3, c3).value == prev.cell(r3, c3).value);
                        }
                    }
                    assert forall|r2: int, c2: int|
                        in_bounds(r2, c2) implies (#[trigger] self.cell(r2, c2)).candidates_within(
                        old(self).cell(r2, c2),
                    ) by {
                        assert(self.cell(r2, c2).candidates_within(prev.cell(r2, c2)));
                        assert(prev.cell(r2, c2).candidates_within(old(self).cell(r2, c2)));
                    }
                    assert forall|r2: int, c2: int|
                        is_peer(row as int, col as int, r2, c2) implies !(#[trigger] self.cell(
                        r2,
                        c2,
                    )).has_candidate(value as int) by {
                        assert(self.cell(r2, c2).candidates_within(prev.cell(r2, c2)));
                        assert(!prev.cell(r2, c2).has_candidate(value as int));
                    }
                    assert forall|r3: int, c3: int|
                        in_bounds(r3, c3) && (#[trigger] self.cell(r3, c3)).value is None
                            && !self.cell(r3, c3).same_cell(old(self).cell(r3, c3)) && self.cell(
                            r3,
                            c3,
                        ).cand_count() == 1 implies exists|i: int|
                        0 <= i < queue@.len() && (#[trigger] queue@[i]).0 == r3 && queue@[i].1
                            == c3 && self.cell(r3, c3).has_candidate(queue@[i].2 as int) by {
                        assert(!(r3 == r && c3 == c));
                        if !self.cell(r3, c3).same_cell(prev.cell(r3, c3)) {
                            let i = choose|i: int|
                                qlen <= i < queue@.len() && (#[trigger] queue@[i]).0 == r3
                                    && queue@[i].1 == c3 && self.cell(r3, c3).has_candidate(
                                    queue@[i].2 as int,
                                );
                            assert(0 <= i < queue@.len());
                        } else {
                            assert(prev.cell(r3, c3).value is None);
                            assert(!prev.cell(r3, c3).same_cell(old(self).cell(r3, c3))) by {
                                if prev.cell(r3, c3).same_cell(old(self).cell(r3, c3)) {
                                    assert(self.cell(r3, c3).same_cell(old(self).cell(r3, c3)));
                                }
                            }
                            lemma_cand_count_same(self.cell(r3, c3), prev.cell(r3, c3), 9);
                            assert(prev.cell(r3, c3).cand_count() == 1);
                            let i = choose|i: int|
                                0 <= i < queue_pre.len() && (#[trigger] queue_pre[i]).0 == r3
                                    && queue_pre[i].1 == c3 && prev.cell(r3, c3).has_candidate(
                                    queue_pre[i].2 as int,
                                );
                            assert(queue_pre[queue_pre.len() - 1].0 == r
                                && queue_pre[queue_pre.len() - 1].1 == c);
                            assert(i < queue_pre.len() - 1);
                            assert(queue_popped[i] == queue_pre[i]);
                            assert(queue@[i] == queue_popped[i]);
                            assert(self.cell(r3, c3).has_candidate(queue@[i].2 as int));
                        }
                    }
                }
            } else {
                proof {
                    assert forall|r3: int, c3: int|
                        in_bounds(r3, c3) && (#[trigger] self.cell(r3, c3)).value is None
                            && !self.cell(r3, c3).same_cell(old(self).cell(r3, c3)) && self.cell(
                            r3,
                            c3,
                        ).cand_count() == 1 implies exists|i: int|
                        0 <= i < queue@.len() && (#[trigger] queue@[i]).0 == r3 && queue@[i].1
                            == c3 && self.cell(r3, c3).has_candidate(queue@[i].2 as int) by {
                        let i = choose|i: int|
                            0 <= i < queue_pre.len() && (#[trigger] queue_pre[i]).0 == r3
                                && queue_pre[i].1 == c3 && self.cell(r3, c3).has_candidate(
                                queue_pre[i].2 as int,
                            );
                        if i == queue_pre.len() - 1 {
                            assert(r3 == r && c3 == c && queue_pre[i].2 == v);
                            assert(self.cell(r as int, c as int).has_candidate(v as int));
                            assert(false);
                        }
                        assert(queue@[i] == queue_pre[i]);
                    }
                }
            }
        }
    }

    /// The digits still possible at `(row, col)` judging from its fixed
    /// neighbors alone: `1..=9` minus the digits fixed among its neighbors,
    /// ascending.
    pub fn evaluate_candidate_values(&self, row: usize, col: usize) -> (r: Vec<u8>)
        requires
            self.wf(),
            row < 9,
            col < 9,
        ensures
            forall|i: int, j: int| 0 <= i < j < r@.len() ==> r@[i] < r@[j],
            forall|i: int|
                0 <= i < r@.len() ==> 1 <= #[trigger] r@[i] <= 9 && !self.peer_fixed_to(
                    row as int,
                    col as int,
                    r@[i],
                ),
            forall|d: u8|
                1 <= d <= 9 && !self.peer_fixed_to(row as int, col as int, d) ==> r@.contains(d),
    {
        let fresh = BoardItem::unknown();
        let item = self.minus_fixed_neighbor_values(row, col, fresh);
        let r = item.get_candidates();
        proof {
            assert forall|d: u8|
                1 <= d <= 9 && !self.peer_fixed_to(row as int, col as int, d) implies r@.contains(
                d,
            ) by {
                assert(item.has_candidate(d as int));
            }
        }
        r
    }
}

} // verus!
