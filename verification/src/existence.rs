//! Existence of solutions: every supported geometry admits a fully
//! solved grid, built from a cyclic pattern. Solving an empty board
//! therefore always succeeds.

use vstd::prelude::*;
use vstd::arithmetic::div_mod::lemma_fundamental_div_mod;
use vstd::arithmetic::div_mod::lemma_fundamental_div_mod_converse;
use vstd::arithmetic::div_mod::lemma_mod_pos_bound;
use crate::board::Board;
use crate::conflict_map::conflicts;
use crate::solver::asc_seq;
use crate::solver::grid_extends;
use crate::solver::lemma_asc_seq_contains;
use crate::solver::lemma_search_complete;
use crate::solver::solve_spec;
use crate::validity::solved_grid;
use crate::validity::valid_grid;

verus! {

/// The pattern grid's value at row `r`, column `c`: the cyclic shift
/// `((r % h) * w + r / h + c) % (h * w) + 1`. From one row to the next
/// within a box the values shift by `w`; from one box band to the next
/// they shift by `1`.
pub open spec fn pattern_cell(h: nat, w: nat, r: int, c: int) -> u8 {
    let n = (h * w) as int;
    ((((r % (h as int)) * (w as int) + r / (h as int) + c) % n) + 1) as u8
}

/// A fully solved grid for the `(h, w)` geometry.
pub open spec fn pattern_grid(h: nat, w: nat) -> Seq<u8> {
    let n = (h * w) as int;
    Seq::new(((h * w) * (h * w)) as nat, |idx: int| pattern_cell(h, w, idx / n, idx % n))
}

/// Two numbers below the modulus apart, congruent modulo it, are
/// equal.
proof fn lemma_mod_injective(a: int, b: int, n: int)
    requires
        1 <= n,
        a % n == b % n,
        -n < a - b < n,
    ensures
        a == b,
{
    lemma_fundamental_div_mod(a, n);
    lemma_fundamental_div_mod(b, n);
    let qa = a / n;
    let qb = b / n;
    let m = a % n;
    assert(a == b) by (nonlinear_arith)
        requires
            1 <= n,
            a == n * qa + m,
            b == n * qb + m,
            -n < a - b < n,
    ;
}

/// A two-digit mixed-radix representation with low digit below `w` is
/// unique.
proof fn lemma_mixed_radix_injective(u1: int, q1: int, u2: int, q2: int, w: int)
    requires
        1 <= w,
        0 <= q1 < w,
        0 <= q2 < w,
        u1 * w + q1 == u2 * w + q2,
    ensures
        u1 == u2,
        q1 == q2,
{
    let x = u1 * w + q1;
    lemma_fundamental_div_mod_converse(x, w, u1, q1);
    lemma_fundamental_div_mod_converse(x, w, u2, q2);
}

/// The row, column and box coordinates carried by a flat cell index.
proof fn lemma_index_parts(h: nat, w: nat, idx: int)
    requires
        1 <= h,
        1 <= w,
        0 <= idx < ((h * w) * (h * w)) as int,
    ensures
        idx == ((h * w) as int) * (idx / ((h * w) as int)) + idx % ((h * w) as int),
        0 <= idx / ((h * w) as int) < (h * w) as int,
        0 <= idx % ((h * w) as int) < (h * w) as int,
        idx / (((h * w) as int) * (h as int)) == (idx / ((h * w) as int)) / (h as int),
        0 <= (idx / ((h * w) as int)) / (h as int) < w as int,
        0 <= (idx / ((h * w) as int)) % (h as int) < h as int,
        idx / ((h * w) as int) == (h as int) * ((idx / ((h * w) as int)) / (h as int)) + (idx / ((
        h * w) as int)) % (h as int),
{
    let n = (h * w) as int;
    let hh = h as int;
    assert(1 <= n) by (nonlinear_arith)
        requires
            1 <= h,
            1 <= w,
            n == (h * w) as int,
    ;
    lemma_fundamental_div_mod(idx, n);
    lemma_mod_pos_bound(idx, n);
    let r = idx / n;
    let c = idx % n;
    assert(0 <= r < n) by (nonlinear_arith)
        requires
            1 <= n,
            0 <= idx < n * n,
            idx == n * r + c,
            0 <= c < n,
    ;
    lemma_fundamental_div_mod(r, hh);
    lemma_mod_pos_bound(r, hh);
    let q = r / hh;
    let u = r % hh;
    assert(0 <= q < w as int) by (nonlinear_arith)
        requires
            1 <= hh,
            n == hh * (w as int),
            0 <= r < n,
            r == hh * q + u,
            0 <= u < hh,
    ;
    assert(idx == q * (n * hh) + (u * n + c) && 0 <= u * n + c < n * hh) by (nonlinear_arith)
        requires
            idx == n * r + c,
            r == hh * q + u,
            0 <= u < hh,
            0 <= c < n,
            1 <= n,
    ;
    lemma_fundamental_div_mod_converse(idx, n * hh, q, u * n + c);
}

/// Two distinct conflicting cells of the pattern grid hold different
/// values.
proof fn lemma_pattern_distinct(h: nat, w: nat, i: int, j: int)
    requires
        1 <= h,
        1 <= w,
        h * w <= 255,
        conflicts(h, w, i, j),
    ensures
        pattern_grid(h, w)[i] != pattern_grid(h, w)[j],
{
    let n = (h * w) as int;
    let hh = h as int;
    let ww = w as int;
    lemma_index_parts(h, w, i);
    lemma_index_parts(h, w, j);
    let r1 = i / n;
    let c1 = i % n;
    let r2 = j / n;
    let c2 = j % n;
    let u1 = r1 % hh;
    let q1 = r1 / hh;
    let u2 = r2 % hh;
    let q2 = r2 / hh;
    let b1 = u1 * ww + q1 + c1;
    let b2 = u2 * ww + q2 + c2;
    assert(0 <= u1 * ww + q1 < n && 0 <= u2 * ww + q2 < n) by (nonlinear_arith)
        requires
            0 <= u1 < hh,
            0 <= q1 < ww,
            0 <= u2 < hh,
            0 <= q2 < ww,
            1 <= hh,
            1 <= ww,
            n == hh * ww,
    ;
    lemma_mod_pos_bound(b1, n);
    lemma_mod_pos_bound(b2, n);
    assert(pattern_grid(h, w)[i] == (b1 % n + 1) as u8);
    assert(pattern_grid(h, w)[j] == (b2 % n + 1) as u8);
    if pattern_grid(h, w)[i] == pattern_grid(h, w)[j] {
        assert(b1 % n == b2 % n);
        if r1 == r2 {
            // Same row: the values differ by the column difference.
            lemma_mod_injective(b1, b2, n);
            assert(i == j);
        } else if c1 == c2 {
            // Same column: the row offsets `u * w + q` are distinct
            // two-digit mixed-radix numbers below `n`.
            lemma_mod_injective(b1, b2, n);
            lemma_mixed_radix_injective(u1, q1, u2, q2, ww);
            assert(r1 == r2);
        } else {
            // Same box: the band `q` and the box column `c / w` agree,
            // so the values differ by distinct `u * w + d` offsets.
            assert(i / (n * hh) == j / (n * hh));
            assert(q1 == q2);
            assert(c1 / ww == c2 / ww);
            lemma_fundamental_div_mod(c1, ww);
            lemma_fundamental_div_mod(c2, ww);
            lemma_mod_pos_bound(c1, ww);
            lemma_mod_pos_bound(c2, ww);
            let bc = c1 / ww;
            let d1 = c1 % ww;
            let d2 = c2 % ww;
            assert(0 <= u1 * ww + d1 < n && 0 <= u2 * ww + d2 < n) by (nonlinear_arith)
                requires
                    0 <= u1 < hh,
                    0 <= d1 < ww,
                    0 <= u2 < hh,
                    0 <= d2 < ww,
                    1 <= hh,
                    1 <= ww,
                    n == hh * ww,
            ;
            assert(b1 - b2 == (u1 * ww + d1) - (u2 * ww + d2)) by (nonlinear_arith)
                requires
                    b1 == u1 * ww + q1 + c1,
                    b2 == u2 * ww + q2 + c2,
                    q1 == q2,
                    c1 == ww * bc + d1,
                    c2 == ww * bc + d2,
            ;
            lemma_mod_injective(b1, b2, n);
            lemma_mixed_radix_injective(u1, d1, u2, d2, ww);
            assert(r1 == r2 && c1 == c2);
            assert(i == j);
        }
    }
}

/// The pattern grid is a completely solved grid of its geometry.
pub proof fn lemma_pattern_solved(h: nat, w: nat)
    requires
        1 <= h,
        1 <= w,
        h * w <= 255,
    ensures
        pattern_grid(h, w).len() == (h * w) * (h * w),
        solved_grid(h, w, pattern_grid(h, w)),
{
    let n = (h * w) as int;
    let t = pattern_grid(h, w);
    assert forall|idx: int| 0 <= idx < t.len() implies 1 <= #[trigger] t[idx] <= h * w by {
        lemma_index_parts(h, w, idx);
        let r = idx / n;
        let c = idx % n;
        let b = (r % (h as int)) * (w as int) + r / (h as int) + c;
        assert(0 <= b) by (nonlinear_arith)
            requires
                0 <= r % (h as int),
                0 <= r / (h as int),
                0 <= c,
                b == (r % (h as int)) * (w as int) + r / (h as int) + c,
                1 <= w,
        ;
        lemma_mod_pos_bound(b, n);
    }
    assert forall|i: int, j: int|
        0 <= i < t.len() && 0 <= j < t.len() && #[trigger] conflicts(h, w, i, j) && t[i] != 0
        implies t[j] != t[i] by {
        lemma_pattern_distinct(h, w, i, j);
    }
}

/// An empty board of any supported geometry can always be solved: a
/// solved grid exists for every geometry, and the search finds one.
/// By `solve`'s own contract, what it returns is then a solved grid.
pub proof fn lemma_solve_empty_succeeds(b: Board)
    requires
        b.wf(),
        forall|i: int| 0 <= i < b.nums@.len() ==> b.nums@[i] == 0,
    ensures
        solve_spec(b) is Some,
{
    let h = b.height as nat;
    let w = b.width as nat;
    assert(valid_grid(h, w, b.nums@));
    lemma_pattern_solved(h, w);
    let t = pattern_grid(h, w);
    assert(grid_extends(t, b.nums@));
    lemma_asc_seq_contains(b.side());
    lemma_search_complete(h, w, b.nums@, asc_seq(b.side()), t);
}

} // verus!
