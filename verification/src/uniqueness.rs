//! The uniqueness check: solve twice, in opposite candidate orders,
//! and compare.

use vstd::prelude::*;
use crate::board::Board;
use crate::solver::asc_seq;
use crate::solver::desc_seq;
use crate::solver::search;

verus! {

/// What `one_soulution` returns. The ascending-order and the
/// descending-order searches walk the search tree in opposite
/// directions, so equal results suggest a unique solution.
///
/// This is a heuristic, not a proof of uniqueness: a puzzle with
/// several solutions could in principle still drive both searches to
/// the same one.
pub open spec fn one_solution_spec(b: Board) -> bool {
    let h = b.height as nat;
    let w = b.width as nat;
    match search(h, w, b.nums@, asc_seq(b.side())) {
        Some(s1) => s1 == match search(h, w, b.nums@, desc_seq(b.side())) {
            Some(s2) => s2,
            None => b.nums@,
        },
        None => false,
    }
}

impl Board {
    /// Whether the board appears to have a single valid solution:
    /// the ascending-order and the descending-order searches find the
    /// same filled grid. Reports false when no solution exists at all.
    pub fn one_soulution(&self) -> (r: bool)
        requires
            self.wf(),
        ensures
            r == one_solution_spec(*self),
    {
        let ghost h = self.height as nat;
        let ghost w = self.width as nat;
        let mut solution_1 = crate::solver::clone_cells(&self.nums);
        let mut solution_2 = crate::solver::clone_cells(&self.nums);
        let side = self.side_len();
        proof {
            assert(side <= 255);
        }
        let low_priority = crate::solver::ascending_order(side as u8);
        let high_priority = crate::solver::descending_order(side as u8);
        let map = self.gen_map();
        if self.recursive_solve(&mut solution_1, &map, &low_priority) {
            let _found = self.recursive_solve(&mut solution_2, &map, &high_priority);
            crate::solver::cells_equal(&solution_1, &solution_2)
        } else {
            false
        }
    }
}

} // verus!
