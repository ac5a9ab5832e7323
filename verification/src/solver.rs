//! The backtracking solver: a mathematical model of the depth-first
//! search and the executable search proved equal to it.

use vstd::prelude::*;
use crate::board::Board;
use crate::conflict_map::conflicts;
use crate::conflict_map::conflict_list;
use crate::conflict_map::is_conflict_map;
use crate::conflict_map::lemma_conflict_list_membership;
use crate::validity::valid_grid;
use crate::validity::filled_grid;
use crate::validity::solved_grid;

verus! {

/// How many cells among the first `n` are empty.
pub open spec fn count_zeros_upto(g: Seq<u8>, n: int) -> nat
    decreases n,
{
    if n <= 0 {
        0
    } else {
        count_zeros_upto(g, n - 1) + (if g[n - 1] == 0 {
            1nat
        } else {
            0nat
        })
    }
}

/// How many cells of the grid are empty.
pub open spec fn count_zeros(g: Seq<u8>) -> nat {
    count_zeros_upto(g, g.len() as int)
}

proof fn lemma_count_zeros_upto_update(g: Seq<u8>, i: int, v: u8, n: int)
    requires
        0 <= i < g.len(),
        g[i] == 0,
        v != 0,
        0 <= n <= g.len(),
    ensures
        count_zeros_upto(g.update(i, v), n) == if i < n {
            count_zeros_upto(g, n) - 1
        } else {
            count_zeros_upto(g, n) as int
        },
    decreases n,
{
    if n > 0 {
        lemma_count_zeros_upto_update(g, i, v, n - 1);
    }
}

/// Writing a non-empty value into an empty cell lowers the number of
/// empty cells.
pub proof fn lemma_count_zeros_update(g: Seq<u8>, i: int, v: u8)
    requires
        0 <= i < g.len(),
        g[i] == 0,
        v != 0,
    ensures
        count_zeros(g.update(i, v)) < count_zeros(g),
{
    lemma_count_zeros_upto_update(g, i, v, g.len() as int);
}

/// The first empty cell at or after position `k`, if any.
pub open spec fn first_zero_from(g: Seq<u8>, k: int) -> Option<int>
    decreases g.len() - k,
{
    if k < 0 || k >= g.len() {
        None
    } else if g[k] == 0 {
        Some(k)
    } else {
        first_zero_from(g, k + 1)
    }
}

/// The first empty cell of the grid, if any.
pub open spec fn first_zero(g: Seq<u8>) -> Option<int> {
    first_zero_from(g, 0)
}

proof fn lemma_first_zero_from(g: Seq<u8>, k: int)
    requires
        0 <= k <= g.len(),
    ensures
        match first_zero_from(g, k) {
            Some(i) => k <= i < g.len() && g[i] == 0 && (forall|j: int|
                k <= j < i ==> g[j] != 0),
            None => forall|j: int| k <= j < g.len() ==> g[j] != 0,
        },
    decreases g.len() - k,
{
    if k < g.len() && g[k] != 0 {
        lemma_first_zero_from(g, k + 1);
    }
}

/// What `first_zero` returns: the position of an empty cell, all cells
/// before it filled; or nothing, when the grid is filled.
pub proof fn lemma_first_zero(g: Seq<u8>)
    ensures
        match first_zero(g) {
            Some(i) => 0 <= i < g.len() && g[i] == 0 && (forall|j: int|
                0 <= j < i ==> g[j] != 0),
            None => filled_grid(g),
        },
{
    lemma_first_zero_from(g, 0);
}

proof fn lemma_first_zero_from_at(g: Seq<u8>, k: int, i: int)
    requires
        0 <= k <= i < g.len(),
        g[i] == 0,
        forall|j: int| k <= j < i ==> g[j] != 0,
    ensures
        first_zero_from(g, k) == Some(i),
    decreases i - k,
{
    if k < i {
        lemma_first_zero_from_at(g, k + 1, i);
    }
}

/// A grid whose cells before `i` are filled and whose cell `i` is
/// empty has `i` as its first empty cell.
pub proof fn lemma_first_zero_at(g: Seq<u8>, i: int)
    requires
        0 <= i < g.len(),
        g[i] == 0,
        forall|j: int| 0 <= j < i ==> g[j] != 0,
    ensures
        first_zero(g) == Some(i),
{
    lemma_first_zero_from_at(g, 0, i);
}

/// Some cell in conflict with cell `i` already holds value `v`.
pub open spec fn has_conflict_value(h: nat, w: nat, g: Seq<u8>, i: int, v: u8) -> bool {
    exists|j: int| 0 <= j < g.len() && #[trigger] conflicts(h, w, i, j) && g[j] == v
}

/// The candidate values `1..=n` in ascending order.
pub open spec fn asc_seq(n: nat) -> Seq<u8> {
    Seq::new(n, |i: int| (i + 1) as u8)
}

/// The candidate values `1..=n` in descending order.
pub open spec fn desc_seq(n: nat) -> Seq<u8> {
    Seq::new(n, |i: int| (n - i) as u8)
}

/// The ascending order offers every candidate value.
pub proof fn lemma_asc_seq_contains(n: nat)
    ensures
        forall|u: u8| 1 <= u <= n ==> #[trigger] asc_seq(n).contains(u),
{
    assert forall|u: u8| 1 <= u <= n implies #[trigger] asc_seq(n).contains(u) by {
        assert(asc_seq(n)[u - 1] == u);
    }
}

/// The depth-first backtracking search, as a mathematical function.
///
/// At the first empty cell, the candidates `order[k]`, `order[k+1]`,
/// ... are tried in turn; a candidate in conflict with a placed value
/// is skipped, any other is placed and the search restarts at the
/// start of the order. The result is the first completely filled grid
/// the search reaches, or nothing when the candidates are exhausted.
pub open spec fn search_from(h: nat, w: nat, g: Seq<u8>, order: Seq<u8>, k: int) -> Option<
    Seq<u8>,
>
    decreases count_zeros(g), order.len() - k,
{
    match first_zero(g) {
        None => Some(g),
        Some(i) => if k >= order.len() {
            None
        } else {
            let v = order[k];
            if v == 0 || has_conflict_value(h, w, g, i, v) {
                search_from(h, w, g, order, k + 1)
            } else {
                proof {
                    lemma_first_zero(g);
                    lemma_count_zeros_update(g, i, v);
                }
                match search_from(h, w, g.update(i, v), order, 0) {
                    Some(t) => Some(t),
                    None => search_from(h, w, g, order, k + 1),
                }
            }
        },
    }
}

/// The search over a whole candidate order.
pub open spec fn search(h: nat, w: nat, g: Seq<u8>, order: Seq<u8>) -> Option<Seq<u8>> {
    search_from(h, w, g, order, 0)
}

/// `g2` keeps every clue of `g`: wherever `g` holds a non-empty value,
/// `g2` holds the same value.
pub open spec fn grid_extends(g2: Seq<u8>, g: Seq<u8>) -> bool {
    &&& g2.len() == g.len()
    &&& forall|i: int| 0 <= i < g.len() && (#[trigger] g[i]) != 0 ==> g2[i] == g[i]
}

/// A filled grid is its own search result, whatever the order.
pub proof fn lemma_search_filled(h: nat, w: nat, g: Seq<u8>, order: Seq<u8>, k: int)
    requires
        filled_grid(g),
    ensures
        search_from(h, w, g, order, k) == Some(g),
{
    lemma_first_zero(g);
    if first_zero(g) is Some {
        let i = first_zero(g)->Some_0;
        assert(g[i] != 0);
    }
}

/// Soundness of the search: whenever it returns a grid, that grid is
/// solved and keeps every clue of the grid the search started from.
pub proof fn lemma_search_sound(h: nat, w: nat, g: Seq<u8>, order: Seq<u8>, k: int)
    requires
        valid_grid(h, w, g),
        forall|t: int| 0 <= t < order.len() ==> 1 <= #[trigger] order[t] <= h * w,
        0 <= k,
    ensures
        match search_from(h, w, g, order, k) {
            Some(t) => solved_grid(h, w, t) && grid_extends(t, g),
            None => true,
        },
    decreases count_zeros(g), order.len() - k,
{
    lemma_first_zero(g);
    match first_zero(g) {
        None => {},
        Some(i) => {
            if k < order.len() {
                let v = order[k];
                if v == 0 || has_conflict_value(h, w, g, i, v) {
                    lemma_search_sound(h, w, g, order, k + 1);
                } else {
                    let g1 = g.update(i, v);
                    crate::validity::lemma_place_preserves_valid(h, w, g, i, v);
                    lemma_count_zeros_update(g, i, v);
                    lemma_search_sound(h, w, g1, order, 0);
                    match search_from(h, w, g1, order, 0) {
                        Some(t) => {
                            assert forall|x: int| 0 <= x < g.len() && (#[trigger] g[x]) != 0
                                implies t[x] == g[x] by {
                                assert(x != i);
                                assert(g1[x] == g[x]);
                                assert(g1[x] != 0);
                            }
                            assert(grid_extends(t, g));
                        },
                        None => {
                            lemma_search_sound(h, w, g, order, k + 1);
                        },
                    }
                }
            }
        },
    }
}

/// Position of the first empty cell of the grid, if any.
fn find_first_zero(v: &Vec<u8>) -> (r: Option<usize>)
    ensures
        match r {
            Some(i) => first_zero(v@) == Some(i as int),
            None => first_zero(v@) == None::<int>,
        },
{
    let n = v.len();
    for i in 0..n
        invariant
            n == v@.len(),
            forall|j: int| 0 <= j < i ==> (#[trigger] v@[j]) != 0,
    {
        if v[i] == 0 {
            proof {
                lemma_first_zero_at(v@, i as int);
            }
            return Some(i);
        }
    }
    proof {
        lemma_first_zero(v@);
        if first_zero(v@) is Some {
            let i = first_zero(v@)->Some_0;
            assert(v@[i] != 0);
        }
    }
    None
}

/// An exact copy of a grid's cells.
pub(crate) fn clone_cells(v: &Vec<u8>) -> (r: Vec<u8>)
    ensures
        r@ == v@,
{
    let n = v.len();
    let mut r: Vec<u8> = Vec::new();
    for i in 0..n
        invariant
            n == v@.len(),
            r@ == v@.subrange(0, i as int),
    {
        r.push(v[i]);
        proof {
            assert(r@ =~= v@.subrange(0, i + 1));
        }
    }
    proof {
        assert(r@ =~= v@);
    }
    r
}

/// Whether two grids hold the same cells.
pub(crate) fn cells_equal(a: &Vec<u8>, b: &Vec<u8>) -> (r: bool)
    ensures
        r == (a@ == b@),
{
    if a.len() != b.len() {
        return false;
    }
    let n = a.len();
    for i in 0..n
        invariant
            n == a@.len(),
            n == b@.len(),
            forall|j: int| 0 <= j < i ==> a@[j] == b@[j],
    {
        if a[i] != b[i] {
            return false;
        }
    }
    proof {
        assert(a@ =~= b@);
    }
    true
}

/// The candidate values `1..=n` in ascending order.
pub fn ascending_order(n: u8) -> (v: Vec<u8>)
    ensures
        v@ == asc_seq(n as nat),
{
    let mut v: Vec<u8> = Vec::new();
    let end = n;
    for i in 0..end
        invariant
            end == n,
            v@.len() == i,
            forall|j: int| 0 <= j < i ==> v@[j] == j + 1,
    {
        v.push(i + 1);
    }
    proof {
        assert(v@ =~= asc_seq(n as nat));
    }
    v
}

/// The candidate values `1..=n` in descending order.
pub fn descending_order(n: u8) -> (v: Vec<u8>)
    ensures
        v@ == desc_seq(n as nat),
{
    let mut v: Vec<u8> = Vec::new();
    let end = n;
    for i in 0..end
        invariant
            end == n,
            v@.len() == i,
            forall|j: int| 0 <= j < i ==> v@[j] == n - j,
    {
        v.push(n - i);
    }
    proof {
        assert(v@ =~= desc_seq(n as nat));
    }
    v
}

impl Board {
    /// Whether placing `num` at `index` collides with a value already
    /// placed in a conflicting cell, read off from that cell's row of
    /// the conflict map.
    fn has_conflict_at(&self, solution: &Vec<u8>, row: &Vec<usize>, index: usize, num: u8) -> (r:
        bool)
        requires
            self.geom_wf(),
            solution@.len() == self.side() * self.side(),
            index < solution@.len(),
            row@ == conflict_list(self.height as nat, self.width as nat, index as int),
        ensures
            r == has_conflict_value(
                self.height as nat,
                self.width as nat,
                solution@,
                index as int,
                num,
            ),
    {
        let ghost h = self.height as nat;
        let ghost w = self.width as nat;
        let m = row.len();
        for k in 0..m
            invariant
                self.geom_wf(),
                h == self.height as nat,
                w == self.width as nat,
                solution@.len() == self.side() * self.side(),
                index < solution@.len(),
                m == row@.len(),
                row@ == conflict_list(h, w, index as int),
                forall|kk: int| 0 <= kk < k ==> solution@[#[trigger] row@[kk] as int] != num,
        {
            proof {
                lemma_conflict_list_membership(h, w, index as int, row@[k as int]);
                assert(row@.contains(row@[k as int]));
                assert(conflicts(h, w, index as int, row@[k as int] as int));
            }
            let j = row[k];
            if solution[j] == num {
                proof {
                    assert(has_conflict_value(h, w, solution@, index as int, num));
                }
                return true;
            }
        }
        proof {
            assert((h * w) * (h * w) <= 255 * 255) by (nonlinear_arith)
                requires
                    h * w <= 255,
            ;
            if has_conflict_value(h, w, solution@, index as int, num) {
                let j = choose|j: int|
                    0 <= j < solution@.len() && #[trigger] conflicts(h, w, index as int, j)
                        && solution@[j] == num;
                lemma_conflict_list_membership(h, w, index as int, j as usize);
                assert(row@.contains(j as usize));
                let kk = choose|kk: int| 0 <= kk < row@.len() && row@[kk] == j as usize;
                assert(solution@[row@[kk] as int] != num);
            }
        }
        false
    }

    /// The depth-first backtracking search. Fills the first empty cell
    /// with the first candidate of `order` that collides with no
    /// placed value, recurses, and undoes the placement when the
    /// recursion fails. Returns exactly what the mathematical search
    /// returns, leaving the grid untouched on failure.
    pub fn recursive_solve(&self, solution: &mut Vec<u8>, map: &Vec<Vec<usize>>, order: &Vec<
        u8,
    >) -> (r: bool)
        requires
            self.geom_wf(),
            old(solution)@.len() == self.side() * self.side(),
            is_conflict_map(self.height as nat, self.width as nat, map@),
            forall|t: int| 0 <= t < order@.len() ==> 1 <= #[trigger] order@[t] <= self.side(),
        ensures
            final(solution)@.len() == old(solution)@.len(),
            r ==> Some(final(solution)@) == search(
                self.height as nat,
                self.width as nat,
                old(solution)@,
                order@,
            ),
            !r ==> final(solution)@ == old(solution)@ && search(
                self.height as nat,
                self.width as nat,
                old(solution)@,
                order@,
            ) is None,
        decreases count_zeros(old(solution)@),
    {
        let ghost h = self.height as nat;
        let ghost w = self.width as nat;
        let ghost g0 = solution@;
        match find_first_zero(solution) {
            None => {
                proof {
                    assert(search_from(h, w, g0, order@, 0) == Some(g0));
                }
                true
            },
            Some(index) => {
                proof {
                    lemma_first_zero(g0);
                }
                let n_order = order.len();
                let mut k: usize = 0;
                while k < n_order
                    invariant
                        self.geom_wf(),
                        h == self.height as nat,
                        w == self.width as nat,
                        g0 == old(solution)@,
                        solution@ == g0,
                        g0.len() == self.side() * self.side(),
                        is_conflict_map(h, w, map@),
                        forall|t: int| 0 <= t < order@.len() ==> 1 <= #[trigger] order@[t]
                            <= self.side(),
                        n_order == order@.len(),
                        k <= n_order,
                        first_zero(g0) == Some(index as int),
                        index < g0.len(),
                        g0[index as int] == 0,
                        search_from(h, w, g0, order@, 0) == search_from(h, w, g0, order@, k as int),
                    decreases n_order - k,
                {
                    let num = order[k];
                    let row = &map[index];
                    proof {
                        assert(map@[index as int]@ == conflict_list(h, w, index as int));
                    }
                    if !self.has_conflict_at(solution, row, index, num) {
                        let ghost g1 = g0.update(index as int, num);
                        solution[index] = num;
                        proof {
                            lemma_count_zeros_update(g0, index as int, num);
                        }
                        if self.recursive_solve(solution, map, order) {
                            proof {
                                assert(search_from(h, w, g1, order@, 0) == Some(solution@));
                                assert(search_from(h, w, g0, order@, k as int) == Some(solution@));
                            }
                            return true;
                        }
                        solution[index] = 0;
                        proof {
                            assert(solution@ =~= g0);
                            assert(search_from(h, w, g1, order@, 0) is None);
                            assert(search_from(h, w, g0, order@, k as int) == search_from(
                                h,
                                w,
                                g0,
                                order@,
                                k as int + 1,
                            ));
                        }
                    } else {
                        proof {
                            assert(search_from(h, w, g0, order@, k as int) == search_from(
                                h,
                                w,
                                g0,
                                order@,
                                k as int + 1,
                            ));
                        }
                    }
                    k = k + 1;
                }
                proof {
                    assert(search_from(h, w, g0, order@, k as int) is None);
                }
                false
            },
        }
    }
}

proof fn lemma_search_from_complete(h: nat, w: nat, g: Seq<u8>, order: Seq<u8>, k: int, t: Seq<u8>)
    requires
        grid_extends(t, g),
        solved_grid(h, w, t),
        0 <= k <= order.len(),
        forall|u: u8| 1 <= u <= h * w ==> #[trigger] order.contains(u),
        first_zero(g) matches Some(i) ==> exists|m: int|
            k <= m < order.len() && order[m] == t[i],
    ensures
        search_from(h, w, g, order, k) is Some,
    decreases count_zeros(g), order.len() - k,
{
    lemma_first_zero(g);
    match first_zero(g) {
        None => {},
        Some(i) => {
            let v0 = t[i];
            assert(t[i] != 0 && 1 <= t[i] <= h * w);
            let m0 = choose|m: int| k <= m < order.len() && order[m] == t[i];
            let v = order[k];
            if v == 0 || has_conflict_value(h, w, g, i, v) {
                // The candidate tried here cannot be the completion's
                // value: that value is non-empty and collides with no
                // placed value, every placed value being the
                // completion's own.
                if v == v0 {
                    let j = choose|j: int|
                        0 <= j < g.len() && #[trigger] conflicts(h, w, i, j) && g[j] == v;
                    assert(t[j] == g[j]);
                    assert(t[j] != t[i]);
                    assert(false);
                }
                assert(m0 != k);
                lemma_search_from_complete(h, w, g, order, k + 1, t);
            } else {
                let g1 = g.update(i, v);
                lemma_count_zeros_update(g, i, v);
                if v == v0 {
                    assert forall|x: int| 0 <= x < g1.len() && (#[trigger] g1[x]) != 0
                        implies t[x] == g1[x] by {
                        if x != i {
                            assert(g1[x] == g[x]);
                        }
                    }
                    assert(grid_extends(t, g1));
                    lemma_first_zero(g1);
                    match first_zero(g1) {
                        Some(i1) => {
                            assert(t[i1] != 0 && 1 <= t[i1] <= h * w);
                            assert(order.contains(t[i1]));
                        },
                        None => {},
                    }
                    lemma_search_from_complete(h, w, g1, order, 0, t);
                } else {
                    if search_from(h, w, g1, order, 0) is None {
                        assert(m0 != k);
                        lemma_search_from_complete(h, w, g, order, k + 1, t);
                    }
                }
            }
        },
    }
}

/// Completeness of the search: when some solved grid keeps every clue
/// of `g` and the candidate order offers every value at least once,
/// the search returns a grid.
pub proof fn lemma_search_complete(h: nat, w: nat, g: Seq<u8>, order: Seq<u8>, t: Seq<u8>)
    requires
        grid_extends(t, g),
        solved_grid(h, w, t),
        forall|u: u8| 1 <= u <= h * w ==> #[trigger] order.contains(u),
    ensures
        search(h, w, g, order) is Some,
{
    lemma_first_zero(g);
    match first_zero(g) {
        Some(i) => {
            assert(t[i] != 0 && 1 <= t[i] <= h * w);
            assert(order.contains(t[i]));
        },
        None => {},
    }
    lemma_search_from_complete(h, w, g, order, 0, t);
}

/// What `solve` returns: nothing when the grid already holds an
/// invalid entry, otherwise the result of the ascending-order search.
pub open spec fn solve_spec(b: Board) -> Option<Seq<u8>> {
    if valid_grid(b.height as nat, b.width as nat, b.nums@) {
        search(b.height as nat, b.width as nat, b.nums@, asc_seq(b.side()))
    } else {
        None
    }
}

impl Board {
    /// Returns a copy of the board in a solved state, or `None` if the
    /// board is unsolvable.
    ///
    /// The result is a function of the board alone: solving the same
    /// board twice returns the same answer. A returned board is
    /// solved, keeps every clue of this board, and is exactly what the
    /// ascending-order search finds.
    pub fn solve(&self) -> (r: Option<Board>)
        requires
            self.wf(),
        ensures
            match r {
                Some(sb) => {
                    &&& sb.height == self.height
                    &&& sb.width == self.width
                    &&& sb.wf()
                    &&& solve_spec(*self) == Some(sb.nums@)
                    &&& solved_grid(self.height as nat, self.width as nat, sb.nums@)
                    &&& grid_extends(sb.nums@, self.nums@)
                },
                None => solve_spec(*self) is None,
            },
    {
        let ghost h = self.height as nat;
        let ghost w = self.width as nat;
        if !self.no_invalid() {
            return None;
        }
        let mut solution = clone_cells(&self.nums);
        let map = self.gen_map();
        let side = self.side_len();
        proof {
            assert(side <= 255);
        }
        let order = ascending_order(side as u8);
        if self.recursive_solve(&mut solution, &map, &order) {
            proof {
                lemma_search_sound(h, w, self.nums@, order@, 0);
            }
            Some(Board { height: self.height, width: self.width, nums: solution })
        } else {
            None
        }
    }
}

} // verus!
