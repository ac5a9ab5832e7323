//! The conflict map: for every cell, the other cells that must hold a
//! different value (same row, same column, or same box).

use vstd::prelude::*;
use crate::board::Board;

verus! {

/// Two distinct in-range cells `i` and `j` of an `(h, w)` geometry
/// conflict when they share a row, a column, or a box. Cells are flat
/// row-major indices over the `s * s` grid, `s = h * w`.
pub open spec fn conflicts(h: nat, w: nat, i: int, j: int) -> bool {
    let s = (h * w) as int;
    &&& 0 <= i < s * s
    &&& 0 <= j < s * s
    &&& i != j
    &&& {
        ||| i / s == j / s
        ||| i % s == j % s
        ||| (i / (s * (h as int)) == j / (s * (h as int))
            && (i % s) / (w as int) == (j % s) / (w as int))
    }
}

/// The conflict relation is symmetric: a cell conflicts with another
/// exactly when that other cell conflicts with it.
pub proof fn lemma_conflicts_symmetric(h: nat, w: nat, i: int, j: int)
    ensures
        conflicts(h, w, i, j) == conflicts(h, w, j, i),
{
}

/// The conflict relation is irreflexive: no cell conflicts with itself.
pub proof fn lemma_conflicts_irreflexive(h: nat, w: nat, i: int)
    ensures
        !conflicts(h, w, i, i),
{
}

/// The conflict indices of cell `i` that are below `n`, in increasing
/// order.
pub open spec fn conflict_list_upto(h: nat, w: nat, i: int, n: int) -> Seq<usize>
    decreases n,
{
    if n <= 0 {
        Seq::empty()
    } else if conflicts(h, w, i, n - 1) {
        conflict_list_upto(h, w, i, n - 1).push((n - 1) as usize)
    } else {
        conflict_list_upto(h, w, i, n - 1)
    }
}

/// All conflict indices of cell `i`, in increasing order.
pub open spec fn conflict_list(h: nat, w: nat, i: int) -> Seq<usize> {
    conflict_list_upto(h, w, i, ((h * w) * (h * w)) as int)
}

/// A vector of rows is the conflict map of an `(h, w)` geometry when
/// it has one row per cell and each row is that cell's conflict list.
pub open spec fn is_conflict_map(h: nat, w: nat, map: Seq<Vec<usize>>) -> bool {
    &&& map.len() == (h * w) * (h * w)
    &&& forall|i: int| 0 <= i < map.len() ==> #[trigger] map[i]@ == conflict_list(h, w, i)
}

pub proof fn lemma_conflict_list_upto_membership(h: nat, w: nat, i: int, n: int, j: usize)
    requires
        0 <= n <= usize::MAX,
    ensures
        conflict_list_upto(h, w, i, n).contains(j) <==> (j < n && conflicts(h, w, i, j as int)),
    decreases n,
{
    if n > 0 {
        lemma_conflict_list_upto_membership(h, w, i, n - 1, j);
        let prefix = conflict_list_upto(h, w, i, n - 1);
        if conflicts(h, w, i, n - 1) {
            let full = prefix.push((n - 1) as usize);
            if full.contains(j) {
                let k = choose|k: int| 0 <= k < full.len() && full[k] == j;
                assert(k < prefix.len() || j == (n - 1) as usize);
            }
            if j < n && conflicts(h, w, i, j as int) {
                if j < n - 1 {
                    assert(prefix.contains(j));
                    let k = choose|k: int| 0 <= k < prefix.len() && prefix[k] == j;
                    assert(full[k] == j);
                } else {
                    assert(full[full.len() - 1] == j);
                }
            }
        }
    }
}

/// Membership in a cell's conflict list coincides with the conflict
/// relation.
pub proof fn lemma_conflict_list_membership(h: nat, w: nat, i: int, j: usize)
    requires
        h * w <= 255,
    ensures
        conflict_list(h, w, i).contains(j) <==> conflicts(h, w, i, j as int),
{
    assert((h * w) * (h * w) <= 255 * 255) by (nonlinear_arith)
        requires
            h * w <= 255,
    ;
    lemma_conflict_list_upto_membership(h, w, i, ((h * w) * (h * w)) as int, j);
}

/// The conflict map is symmetric and irreflexive: cell `j` is listed
/// for cell `i` exactly when `i` is listed for `j`, and no cell is
/// listed for itself.
pub proof fn lemma_conflict_map_symmetric(h: nat, w: nat, i: usize, j: usize)
    requires
        h * w <= 255,
    ensures
        conflict_list(h, w, i as int).contains(j) == conflict_list(h, w, j as int).contains(i),
        !conflict_list(h, w, i as int).contains(i),
{
    lemma_conflict_list_membership(h, w, i as int, j);
    lemma_conflict_list_membership(h, w, j as int, i);
    lemma_conflict_list_membership(h, w, i as int, i);
    lemma_conflicts_symmetric(h, w, i as int, j as int);
    lemma_conflicts_irreflexive(h, w, i as int);
}

impl Board {
    /// Decides the conflict relation for two in-range cells.
    fn is_conflict(&self, i: usize, j: usize) -> (r: bool)
        requires
            self.geom_wf(),
            i < self.side() * self.side(),
            j < self.side() * self.side(),
        ensures
            r == conflicts(self.height as nat, self.width as nat, i as int, j as int),
    {
        let s = self.height * self.width;
        proof {
            assert(1 <= s && 1 <= s * self.height && s * self.height <= 255 * 255) by (nonlinear_arith)
                requires
                    s == self.height * self.width,
                    1 <= self.height,
                    1 <= self.width,
                    self.height * self.width <= 255,
            ;
        }
        let band = s * self.height;
        i != j && (i / s == j / s || i % s == j % s || (i / band == j / band && (i % s)
            / self.width == (j % s) / self.width))
    }

    /// Builds the conflict map for this board's geometry: for every
    /// cell index, the increasing list of all other cells in the same
    /// row, column, or box.
    pub fn gen_map(&self) -> (map: Vec<Vec<usize>>)
        requires
            self.geom_wf(),
        ensures
            is_conflict_map(self.height as nat, self.width as nat, map@),
    {
        let s = self.height * self.width;
        proof {
            assert(s * s <= 255 * 255) by (nonlinear_arith)
                requires
                    s == self.height * self.width,
                    self.height * self.width <= 255,
            ;
        }
        let cells = s * s;
        let ghost h = self.height as nat;
        let ghost w = self.width as nat;
        let mut map: Vec<Vec<usize>> = Vec::new();
        for i in 0..cells
            invariant
                self.geom_wf(),
                h == self.height as nat,
                w == self.width as nat,
                s == self.side(),
                cells == self.side() * self.side(),
                map@.len() == i,
                forall|ii: int|
                    0 <= ii < i ==> #[trigger] map@[ii]@ == conflict_list(h, w, ii),
        {
            let mut row: Vec<usize> = Vec::new();
            for j in 0..cells
                invariant
                    self.geom_wf(),
                    h == self.height as nat,
                    w == self.width as nat,
                    s == self.side(),
                    cells == self.side() * self.side(),
                    i < cells,
                    row@ == conflict_list_upto(h, w, i as int, j as int),
            {
                if self.is_conflict(i, j) {
                    row.push(j);
                }
                proof {
                    assert(row@ == conflict_list_upto(h, w, i as int, j + 1));
                }
            }
            map.push(row);
            proof {
                assert(cells as int == ((h * w) * (h * w)) as int);
                assert(map@[i as int]@ == conflict_list(h, w, i as int));
            }
        }
        map
    }
}

} // verus!
