//! Puzzle generation: solve an empty board along a random candidate
//! order, then clear cells in random order while the solution stays
//! unique.

use vstd::prelude::*;
use rand::seq::SliceRandom;
use crate::board::Board;
use crate::solver::asc_seq;
use crate::solver::desc_seq;
use crate::solver::grid_extends;
use crate::solver::lemma_search_filled;
use crate::solver::lemma_search_sound;
use crate::uniqueness::one_solution_spec;
use crate::validity::lemma_clear_preserves_valid;
use crate::validity::solved_grid;
use crate::validity::valid_grid;

verus! {

/// Relies on `rand::seq::SliceRandom::shuffle` with the generator from
/// `rand::thread_rng`: a Fisher-Yates shuffle reorders the elements in
/// place by swaps, so the length and the multiset of elements stay the
/// same, while the resulting order is arbitrary.
#[verifier::external_body]
fn shuffle<T>(v: &mut Vec<T>)
    ensures
        final(v)@.len() == old(v)@.len(),
        final(v)@.to_multiset() == old(v)@.to_multiset(),
{
    v.shuffle(&mut rand::thread_rng())
}

/// The candidate values `1..=n` in an arbitrary order: each value
/// appears, and nothing else does.
pub fn shuffled_order(n: u8) -> (v: Vec<u8>)
    ensures
        v@.len() == n as nat,
        forall|t: int| 0 <= t < v@.len() ==> 1 <= #[trigger] v@[t] <= n,
        forall|u: u8| 1 <= u <= n ==> #[trigger] v@.contains(u),
{
    let mut v = crate::solver::ascending_order(n);
    shuffle(&mut v);
    proof {
        broadcast use vstd::seq_lib::group_to_multiset_ensures;

        assert forall|t: int| 0 <= t < v@.len() implies 1 <= #[trigger] v@[t] <= n by {
            assert(v@.contains(v@[t]));
            assert(v@.to_multiset().count(v@[t]) > 0);
            assert(asc_seq(n as nat).contains(v@[t]));
            let s = choose|s: int| 0 <= s < asc_seq(n as nat).len() && asc_seq(n as nat)[s] == v@[t];
            assert(v@[t] == s + 1);
        }
        crate::solver::lemma_asc_seq_contains(n as nat);
        assert forall|u: u8| 1 <= u <= n implies #[trigger] v@.contains(u) by {
            assert(asc_seq(n as nat).contains(u));
            assert(asc_seq(n as nat).to_multiset().count(u) > 0);
            assert(v@.to_multiset().count(u) > 0);
        }
    }
    v
}

/// All cell indices below `cells`, in an arbitrary order.
fn shuffled_indices(cells: usize) -> (v: Vec<usize>)
    ensures
        v@.len() == cells as nat,
        forall|t: int| 0 <= t < v@.len() ==> #[trigger] v@[t] < cells,
{
    let mut v: Vec<usize> = Vec::new();
    for i in 0..cells
        invariant
            v@.len() == i,
            forall|j: int| 0 <= j < i ==> #[trigger] v@[j] == j,
    {
        v.push(i);
    }
    let ghost iota = v@;
    shuffle(&mut v);
    proof {
        broadcast use vstd::seq_lib::group_to_multiset_ensures;

        assert forall|t: int| 0 <= t < v@.len() implies #[trigger] v@[t] < cells by {
            assert(v@.contains(v@[t]));
            assert(v@.to_multiset().count(v@[t]) > 0);
            assert(iota.contains(v@[t]));
            let s = choose|s: int| 0 <= s < iota.len() && iota[s] == v@[t];
            assert(v@[t] == s);
        }
    }
    v
}

/// The grid keeps only clues of some completely solved grid: a
/// witness solved grid agrees with every non-empty cell.
pub open spec fn derived_from_solution(h: nat, w: nat, g: Seq<u8>) -> bool {
    exists|t: Seq<u8>| #[trigger] solved_grid(h, w, t) && grid_extends(t, g)
}

/// A board cut from a full solution is solvable by construction: the
/// ascending-order search solves it again, and likewise the board
/// emptied of all its clues.
pub proof fn lemma_generated_solvable(b: Board)
    requires
        b.wf(),
        valid_grid(b.height as nat, b.width as nat, b.nums@),
        derived_from_solution(b.height as nat, b.width as nat, b.nums@),
    ensures
        crate::solver::solve_spec(b) is Some,
        crate::solver::search(
            b.height as nat,
            b.width as nat,
            Seq::new(b.nums@.len(), |i: int| 0u8),
            asc_seq(b.side()),
        ) is Some,
{
    let h = b.height as nat;
    let w = b.width as nat;
    let t = choose|t: Seq<u8>| #[trigger] solved_grid(h, w, t) && grid_extends(t, b.nums@);
    crate::solver::lemma_asc_seq_contains(b.side());
    crate::solver::lemma_search_complete(h, w, b.nums@, asc_seq(b.side()), t);
    let e = Seq::new(b.nums@.len(), |i: int| 0u8);
    assert(grid_extends(t, e));
    crate::solver::lemma_search_complete(h, w, e, asc_seq(b.side()), t);
}

/// Generates an unsolved sudoku board.
///
/// An empty board of the given geometry is solved along a random
/// candidate order (which always succeeds: a solved grid exists for
/// every geometry); values are then cleared one at a time in random
/// order, restoring any value whose removal leaves the board without
/// an apparently unique solution. The result is a valid puzzle cut
/// from one full solution, it passes the uniqueness check, and it can
/// be solved again.
pub fn gen_board(width: usize, height: usize) -> (b: Board)
    requires
        1 <= width,
        1 <= height,
        width * height <= 255,
    ensures
        b.width == width,
        b.height == height,
        b.wf(),
        valid_grid(b.height as nat, b.width as nat, b.nums@),
        one_solution_spec(b),
        derived_from_solution(b.height as nat, b.width as nat, b.nums@),
        crate::solver::solve_spec(b) is Some,
{
    let ghost h = height as nat;
    let ghost w = width as nat;
    let side = width * height;
    proof {
        assert(1 <= side && side * side <= 255 * 255) by (nonlinear_arith)
            requires
                side == width * height,
                1 <= width,
                1 <= height,
                width * height <= 255,
        ;
    }
    let cells = side * side;
    let nums: Vec<u8> = vec![0u8; cells];
    let mut board = Board { width, height, nums };
    proof {
        assert(width * height == height * width) by (nonlinear_arith);
        assert(board.side() == side);
        assert(board.wf());
        assert(valid_grid(h, w, board.nums@));
    }
    let map = board.gen_map();
    let order = shuffled_order(side as u8);
    let mut solution = crate::solver::clone_cells(&board.nums);
    let ghost zeros = board.nums@;
    let solved = board.recursive_solve(&mut solution, &map, &order);
    proof {
        // A solved grid exists for every geometry and the shuffled
        // order offers every candidate value, so the random search
        // cannot have failed.
        crate::existence::lemma_pattern_solved(h, w);
        assert(grid_extends(crate::existence::pattern_grid(h, w), zeros));
        crate::solver::lemma_search_complete(
            h,
            w,
            zeros,
            order@,
            crate::existence::pattern_grid(h, w),
        );
        assert(solved);
        lemma_search_sound(h, w, zeros, order@, 0);
    }
    let ghost full = solution@;
    board.nums = solution;
    proof {
        assert(grid_extends(full, board.nums@));
        lemma_search_filled(h, w, full, asc_seq(board.side()), 0);
        lemma_search_filled(h, w, full, desc_seq(board.side()), 0);
        assert(one_solution_spec(board));
    }
    let removing_order = shuffled_indices(cells);
    let rm_len = removing_order.len();
    for pos in 0..rm_len
        invariant
            board.height == height,
            board.width == width,
            h == height as nat,
            w == width as nat,
            board.wf(),
            board.nums@.len() == cells,
            cells == board.side() * board.side(),
            valid_grid(h, w, board.nums@),
            one_solution_spec(board),
            solved_grid(h, w, full),
            grid_extends(full, board.nums@),
            rm_len == removing_order@.len(),
            forall|t: int| 0 <= t < removing_order@.len() ==> #[trigger] removing_order@[t]
                < cells,
    {
        let idx = removing_order[pos];
        let ghost before = board.nums@;
        let prev = board.nums[idx];
        board.nums[idx] = 0;
        proof {
            lemma_clear_preserves_valid(h, w, before, idx as int);
            assert forall|i: int|
                0 <= i < board.nums@.len() && (#[trigger] board.nums@[i]) != 0
                implies full[i] == board.nums@[i] by {
                assert(board.nums@[i] == before[i]);
            }
        }
        if !board.one_soulution() {
            board.nums[idx] = prev;
            proof {
                assert(board.nums@ =~= before);
                assert(one_solution_spec(board));
            }
        }
    }
    proof {
        assert(derived_from_solution(h, w, board.nums@));
        lemma_generated_solvable(board);
    }
    board
}

} // verus!
