//! Grid validity: value ranges, absence of conflicts, completeness.

use vstd::prelude::*;
use crate::board::Board;
use crate::conflict_map::conflicts;
use crate::conflict_map::conflict_list;
use crate::conflict_map::is_conflict_map;
use crate::conflict_map::lemma_conflict_list_membership;
use crate::conflict_map::lemma_conflicts_symmetric;

verus! {

/// Every non-empty cell holds a value in `1..=h*w`.
pub open spec fn values_in_range(h: nat, w: nat, g: Seq<u8>) -> bool {
    forall|i: int| 0 <= i < g.len() && (#[trigger] g[i]) != 0 ==> 1 <= g[i] <= h * w
}

/// No two conflicting cells hold the same non-empty value.
pub open spec fn no_conflicting_pair(h: nat, w: nat, g: Seq<u8>) -> bool {
    forall|i: int, j: int|
        0 <= i < g.len() && 0 <= j < g.len() && #[trigger] conflicts(h, w, i, j) && g[i] != 0
            ==> g[j] != g[i]
}

/// The grid has no invalid entry: all values in range, no direct
/// conflict.
pub open spec fn valid_grid(h: nat, w: nat, g: Seq<u8>) -> bool {
    values_in_range(h, w, g) && no_conflicting_pair(h, w, g)
}

/// No cell holds the empty sentinel.
pub open spec fn filled_grid(g: Seq<u8>) -> bool {
    forall|i: int| 0 <= i < g.len() ==> (#[trigger] g[i]) != 0
}

/// A solved grid: completely filled and free of invalid entries.
pub open spec fn solved_grid(h: nat, w: nat, g: Seq<u8>) -> bool {
    valid_grid(h, w, g) && filled_grid(g)
}

impl Board {
    /// All numbers are in the valid range (e.g. 1 to 9 for a 9x9 board)
    /// and no number is in direct conflict with another number.
    pub fn no_invalid(&self) -> (r: bool)
        requires
            self.wf(),
        ensures
            r == valid_grid(self.height as nat, self.width as nat, self.nums@),
    {
        let ghost h = self.height as nat;
        let ghost w = self.width as nat;
        let map = self.gen_map();
        let side = self.side_len();
        let n = self.nums.len();
        for i in 0..n
            invariant
                self.wf(),
                h == self.height as nat,
                w == self.width as nat,
                side == self.side(),
                n == self.nums@.len(),
                n == self.side() * self.side(),
                is_conflict_map(h, w, map@),
                forall|ii: int| 0 <= ii < i && (#[trigger] self.nums@[ii]) != 0
                    ==> 1 <= self.nums@[ii] <= h * w,
                forall|ii: int, j: int|
                    0 <= ii < i && 0 <= j < n && #[trigger] conflicts(h, w, ii, j)
                        && self.nums@[ii] != 0 ==> self.nums@[j] != self.nums@[ii],
        {
            let v = self.nums[i];
            if v != 0 {
                if v > side as u8 {
                    proof {
                        assert(side <= 255);
                        assert(!values_in_range(h, w, self.nums@));
                    }
                    return false;
                }
                let row = &map[i];
                let m = row.len();
                for k in 0..m
                    invariant
                        self.wf(),
                        h == self.height as nat,
                        w == self.width as nat,
                        n == self.nums@.len(),
                        n == self.side() * self.side(),
                        i < n,
                        v == self.nums@[i as int],
                        v != 0,
                        m == row@.len(),
                        row@ == conflict_list(h, w, i as int),
                        forall|kk: int| 0 <= kk < k
                            ==> self.nums@[#[trigger] row@[kk] as int] != v,
                {
                    proof {
                        lemma_conflict_list_membership(h, w, i as int, row@[k as int]);
                        assert(row@.contains(row@[k as int]));
                    }
                    let j = row[k];
                    if self.nums[j] == v {
                        proof {
                            assert(conflicts(h, w, i as int, j as int));
                            assert(!no_conflicting_pair(h, w, self.nums@));
                        }
                        return false;
                    }
                }
                proof {
                    assert forall|j: int|
                        0 <= j < n && conflicts(h, w, i as int, j) && self.nums@[i as int] != 0
                            implies self.nums@[j] != self.nums@[i as int] by {
                        lemma_conflict_list_membership(h, w, i as int, j as usize);
                        assert(row@.contains(j as usize));
                        let k = choose|k: int| 0 <= k < row@.len() && row@[k] == j as usize;
                        assert(self.nums@[row@[k] as int] != v);
                    }
                }
            }
        }
        true
    }

    /// No cell is empty.
    pub fn is_filled(&self) -> (r: bool)
        requires
            self.wf(),
        ensures
            r == filled_grid(self.nums@),
    {
        let n = self.nums.len();
        for i in 0..n
            invariant
                n == self.nums@.len(),
                forall|ii: int| 0 <= ii < i ==> (#[trigger] self.nums@[ii]) != 0,
        {
            if self.nums[i] == 0 {
                return false;
            }
        }
        true
    }

    /// The board is filled and contains only valid, non-conflicting
    /// numbers.
    pub fn is_solved(&self) -> (r: bool)
        requires
            self.wf(),
        ensures
            r == solved_grid(self.height as nat, self.width as nat, self.nums@),
    {
        self.no_invalid() && self.is_filled()
    }
}

/// Clearing any one cell of a grid with no invalid entries leaves a
/// grid with no invalid entries.
pub proof fn lemma_clear_preserves_valid(h: nat, w: nat, g: Seq<u8>, i: int)
    requires
        valid_grid(h, w, g),
        0 <= i < g.len(),
    ensures
        valid_grid(h, w, g.update(i, 0)),
{
    let g2 = g.update(i, 0);
    assert forall|x: int, y: int|
        0 <= x < g2.len() && 0 <= y < g2.len() && #[trigger] conflicts(h, w, x, y) && g2[x] != 0
            implies g2[y] != g2[x] by {
        assert(x != i);
        assert(g2[x] == g[x]);
        if y != i {
            assert(g2[y] == g[y]);
        }
    }
}

/// Writing a value that is in range and in conflict with no placed
/// value into an empty cell leaves a grid with no invalid entries.
pub proof fn lemma_place_preserves_valid(h: nat, w: nat, g: Seq<u8>, i: int, v: u8)
    requires
        valid_grid(h, w, g),
        0 <= i < g.len(),
        g[i] == 0,
        1 <= v <= h * w,
        !crate::solver::has_conflict_value(h, w, g, i, v),
    ensures
        valid_grid(h, w, g.update(i, v)),
{
    let g2 = g.update(i, v);
    assert forall|x: int, y: int|
        0 <= x < g2.len() && 0 <= y < g2.len() && #[trigger] conflicts(h, w, x, y) && g2[x] != 0
            implies g2[y] != g2[x] by {
        if x == i {
            assert(y != i);
            assert(g2[y] == g[y]);
            if g[y] == v {
                assert(conflicts(h, w, i, y) && g[y] == v);
                assert(crate::solver::has_conflict_value(h, w, g, i, v));
            }
        } else if y == i {
            assert(g2[x] == g[x]);
            if g[x] == v {
                lemma_conflicts_symmetric(h, w, x, y);
                assert(conflicts(h, w, i, x) && g[x] == v);
                assert(crate::solver::has_conflict_value(h, w, g, i, v));
            }
        } else {
            assert(g2[x] == g[x] && g2[y] == g[y]);
        }
    }
}

/// Mutating any single cell of a solved grid to the empty sentinel, to
/// a value beyond the range, or to a value already present in a
/// conflicting cell leaves a grid that is no longer solved.
pub proof fn lemma_mutation_unsolves(h: nat, w: nat, g: Seq<u8>, i: int, v: u8)
    requires
        0 <= i < g.len(),
        v == 0 || v > h * w || exists|j: int|
            0 <= j < g.len() && #[trigger] conflicts(h, w, i, j) && g[j] == v && g[j] != 0,
    ensures
        !solved_grid(h, w, g.update(i, v)),
{
    let g2 = g.update(i, v);
    if v == 0 {
        assert(g2[i] == 0);
        assert(!filled_grid(g2));
    } else if v > h * w {
        assert(g2[i] != 0 && !(g2[i] <= h * w));
        assert(!values_in_range(h, w, g2));
    } else {
        let j = choose|j: int|
            0 <= j < g.len() && #[trigger] conflicts(h, w, i, j) && g[j] == v && g[j] != 0;
        assert(j != i);
        assert(g2[j] == v);
        assert(g2[i] == v && g2[i] != 0);
        assert(!no_conflicting_pair(h, w, g2));
    }
}

} // verus!
