//! The mathematical model of a grid: candidate sets as a flat sequence of
//! 729 flags, one per (cell, digit) pair, with what it means for a grid to
//! be consistent, to be solved, and to admit a solution.
use vstd::prelude::*;
use crate::topology::{is_cell, is_peer, unit_cell};

verus! {

pub open spec fn is_digit(d: int) -> bool {
    1 <= d <= 9
}

/// Where the flag of digit `d` of cell `s` lives.
pub open spec fn slot(s: int, d: int) -> int {
    9 * s + d - 1
}

/// Digit `d` is still a candidate of cell `s`.
pub open spec fn cand(g: Seq<bool>, s: int, d: int) -> bool {
    is_cell(s) && is_digit(d) && g[slot(s, d)]
}

pub open spec fn nonempty(g: Seq<bool>, s: int) -> bool {
    exists|d: int| #[trigger] cand(g, s, d)
}

/// Cell `s` holds `d` and nothing else.
pub open spec fn single(g: Seq<bool>, s: int, d: int) -> bool {
    cand(g, s, d) && forall|e: int| #[trigger] cand(g, s, e) ==> e == d
}

/// No peer of `s` still has `d`.
pub open spec fn clear_of(g: Seq<bool>, s: int, d: int) -> bool {
    forall|p: int| #[trigger] is_peer(s, p) ==> !cand(g, p, d)
}

/// A cell is settled when it has a candidate, and when, holding a single
/// digit, that digit is gone from all its peers.
pub open spec fn settled(g: Seq<bool>, s: int) -> bool {
    &&& nonempty(g, s)
    &&& forall|d: int| #[trigger] single(g, s, d) ==> clear_of(g, s, d)
}

/// Some cell of unit `u` can still hold `d`.
pub open spec fn placed(g: Seq<bool>, u: int, d: int) -> bool {
    exists|k: int| 0 <= k < 9 && #[trigger] cand(g, unit_cell(u, k), d)
}

/// Some cell of unit `u` had `d` in `a` and no longer has it in `b`.
pub open spec fn lost(a: Seq<bool>, b: Seq<bool>, u: int, d: int) -> bool {
    exists|k: int| 0 <= k < 9 && #[trigger] cand(a, unit_cell(u, k), d) && !cand(b, unit_cell(u, k), d)
}

pub open spec fn same_cell(a: Seq<bool>, b: Seq<bool>, s: int) -> bool {
    forall|d: int| #[trigger] cand(a, s, d) == cand(b, s, d)
}

/// Every flag of `b` is also set in `a`: candidate sets only shrink.
pub open spec fn within(b: Seq<bool>, a: Seq<bool>) -> bool {
    &&& b.len() == 729
    &&& a.len() == 729
    &&& forall|i: int| 0 <= i < 729 && #[trigger] b[i] ==> a[i]
}

/// The `k`-th cell is the only place left for `d` in unit `u`.
pub open spec fn only_place(g: Seq<bool>, u: int, d: int, k: int) -> bool {
    &&& 0 <= k < 9
    &&& cand(g, unit_cell(u, k), d)
    &&& forall|k2: int| 0 <= k2 < 9 && #[trigger] cand(g, unit_cell(u, k2), d) ==> k2 == k
}

/// Whatever changed from `a` to `b` was checked: every cell that changed
/// is settled, every unit that lost a place for a digit still has one, and
/// when that place is the only one left the digit has been put there.
pub open spec fn propagated(a: Seq<bool>, b: Seq<bool>) -> bool {
    &&& forall|s: int| is_cell(s) && !#[trigger] same_cell(a, b, s) ==> settled(b, s)
    &&& forall|u: int, d: int|
        0 <= u < 27 && is_digit(d) && #[trigger] lost(a, b, u, d) ==> placed(b, u, d)
    &&& forall|u: int, d: int, k: int|
        0 <= u < 27 && is_digit(d) && #[trigger] lost(a, b, u, d) && #[trigger] only_place(b, u, d, k)
            ==> single(b, unit_cell(u, k), d)
}

/// No cell is empty, every unit still has a place for every digit, and a
/// cell reduced to one digit has taken that digit from its peers.
pub open spec fn consistent(g: Seq<bool>) -> bool {
    &&& g.len() == 729
    &&& forall|s: int| is_cell(s) ==> #[trigger] settled(g, s)
    &&& forall|u: int, d: int| 0 <= u < 27 && is_digit(d) ==> #[trigger] placed(g, u, d)
}

/// Cell `s` holds exactly one digit.
pub open spec fn determined(g: Seq<bool>, s: int) -> bool {
    exists|d: int| #[trigger] single(g, s, d)
}

/// Every cell holds exactly one digit.
pub open spec fn solved(g: Seq<bool>) -> bool {
    &&& g.len() == 729
    &&& forall|s: int| is_cell(s) ==> #[trigger] determined(g, s)
}

/// The digit that a solved cell holds.
pub open spec fn value_of(g: Seq<bool>, s: int) -> int {
    choose|d: int| single(g, s, d)
}

/// The grid of digits that a solved candidate grid stands for.
pub open spec fn grid_of(g: Seq<bool>) -> Seq<int> {
    Seq::new(81, |s: int| value_of(g, s))
}

/// Unit `u` holds digit `d` somewhere in `sol`.
pub open spec fn unit_holds(sol: Seq<int>, u: int, d: int) -> bool {
    exists|k: int| 0 <= k < 9 && #[trigger] sol[unit_cell(u, k)] == d
}

/// A completely filled, valid Sudoku grid: peers differ and every unit
/// holds every digit.
pub open spec fn is_solution(sol: Seq<int>) -> bool {
    &&& sol.len() == 81
    &&& forall|s: int| is_cell(s) ==> is_digit(#[trigger] sol[s])
    &&& forall|s: int, t: int| #[trigger] is_peer(s, t) ==> sol[s] != sol[t]
    &&& forall|u: int, d: int| 0 <= u < 27 && is_digit(d) ==> #[trigger] unit_holds(sol, u, d)
}

/// Every cell of `g` still has the digit that `sol` puts there.
pub open spec fn admits(g: Seq<bool>, sol: Seq<int>) -> bool {
    forall|s: int| is_cell(s) ==> #[trigger] cand(g, s, sol[s])
}

/// The number of candidates among digits `1..=k` of cell `s`.
pub open spec fn digits_upto(g: Seq<bool>, s: int, k: int) -> nat
    decreases k,
{
    if k <= 0 {
        0
    } else {
        digits_upto(g, s, k - 1) + if cand(g, s, k) {
            1nat
        } else {
            0nat
        }
    }
}

/// The size of the candidate set of cell `s`.
pub open spec fn cand_count(g: Seq<bool>, s: int) -> nat {
    digits_upto(g, s, 9)
}

/// The number of cells among the first `n` that still have `d`.
pub open spec fn cells_with(g: Seq<bool>, d: int, n: int) -> nat
    decreases n,
{
    if n <= 0 {
        0
    } else {
        cells_with(g, d, n - 1) + if cand(g, n - 1, d) {
            1nat
        } else {
            0nat
        }
    }
}

/// How many cells of the whole grid still have `d` as a candidate.
pub open spec fn popularity(g: Seq<bool>, d: int) -> nat {
    cells_with(g, d, 81)
}

/// The number of flags set: the sum of all candidate set sizes.
pub open spec fn total(g: Seq<bool>) -> nat
    decreases g.len(),
{
    if g.len() == 0 {
        0
    } else {
        total(g.drop_last()) + if g.last() {
            1nat
        } else {
            0nat
        }
    }
}

/// The grid in which every cell still has all nine digits.
pub open spec fn full() -> Seq<bool> {
    Seq::new(729, |i: int| true)
}

pub proof fn lemma_total_within(b: Seq<bool>, a: Seq<bool>)
    requires
        b.len() == a.len(),
        forall|i: int| 0 <= i < b.len() && #[trigger] b[i] ==> a[i],
    ensures
        total(b) <= total(a),
        (exists|i: int| 0 <= i < a.len() && a[i] && !b[i]) ==> total(b) < total(a),
    decreases a.len(),
{
    if a.len() > 0 {
        let (b2, a2) = (b.drop_last(), a.drop_last());
        assert forall|i: int| 0 <= i < b2.len() && #[trigger] b2[i] implies a2[i] by {
            assert(b[i]);
        }
        lemma_total_within(b2, a2);
        if exists|i: int| 0 <= i < a.len() && a[i] && !b[i] {
            let i = choose|i: int| 0 <= i < a.len() && a[i] && !b[i];
            if i < a.len() - 1 {
                assert(a2[i] && !b2[i]);
            }
        }
    }
}

pub proof fn lemma_within_trans(c: Seq<bool>, b: Seq<bool>, a: Seq<bool>)
    requires
        within(c, b),
        within(b, a),
    ensures
        within(c, a),
{
}

pub proof fn lemma_propagated_refl(a: Seq<bool>)
    ensures
        propagated(a, a),
{
    assert forall|u: int, d: int, k: int|
        0 <= u < 27 && is_digit(d) && #[trigger] lost(a, a, u, d) && #[trigger] only_place(a, u, d, k)
            implies single(a, unit_cell(u, k), d) by {
        let k0 = choose|k0: int| 0 <= k0 < 9 && #[trigger] cand(a, unit_cell(u, k0), d) && !cand(a, unit_cell(u, k0), d);
    }
    assert forall|u: int, d: int| 0 <= u < 27 && is_digit(d) && #[trigger] lost(a, a, u, d) implies placed(a, u, d) by {
        let k = choose|k: int| 0 <= k < 9 && #[trigger] cand(a, unit_cell(u, k), d) && !cand(a, unit_cell(u, k), d);
    }
}

/// Checked changes compose.
pub proof fn lemma_propagated_trans(a: Seq<bool>, b: Seq<bool>, c: Seq<bool>)
    requires
        within(b, a),
        within(c, b),
        propagated(a, b),
        propagated(b, c),
    ensures
        propagated(a, c),
        within(c, a),
{
    assert forall|s: int| is_cell(s) && !#[trigger] same_cell(a, c, s) implies settled(c, s) by {
        if same_cell(b, c, s) {
            if same_cell(a, b, s) {
                assert forall|d: int| #[trigger] cand(a, s, d) == cand(c, s, d) by {
                    assert(cand(a, s, d) == cand(b, s, d));
                    assert(cand(b, s, d) == cand(c, s, d));
                }
            }
            assert(settled(b, s));
            let d0 = choose|d: int| #[trigger] cand(b, s, d);
            assert(cand(b, s, d0) == cand(c, s, d0));
            assert forall|d: int| #[trigger] single(c, s, d) implies clear_of(c, s, d) by {
                assert forall|e: int| #[trigger] cand(b, s, e) implies e == d by {
                    assert(cand(b, s, e) == cand(c, s, e));
                }
                assert(cand(b, s, d) == cand(c, s, d));
                assert(single(b, s, d));
                assert(clear_of(b, s, d));
            }
        }
    }
    assert forall|u: int, d: int| 0 <= u < 27 && is_digit(d) && #[trigger] lost(a, c, u, d) implies placed(c, u, d) by {
        if !lost(b, c, u, d) {
            let k = choose|k: int| 0 <= k < 9 && #[trigger] cand(a, unit_cell(u, k), d) && !cand(c, unit_cell(u, k), d);
            if cand(b, unit_cell(u, k), d) {
                assert(lost(b, c, u, d));
            }
            assert(lost(a, b, u, d));
            assert(placed(b, u, d));
            let k2 = choose|k: int| 0 <= k < 9 && #[trigger] cand(b, unit_cell(u, k), d);
            if !cand(c, unit_cell(u, k2), d) {
                assert(lost(b, c, u, d));
            }
            assert(cand(c, unit_cell(u, k2), d));
        }
    }
    assert forall|u: int, d: int, k: int|
        0 <= u < 27 && is_digit(d) && #[trigger] lost(a, c, u, d) && #[trigger] only_place(c, u, d, k)
            implies single(c, unit_cell(u, k), d) by {
        crate::topology::lemma_unit_cells(u, k, k);
        let x = unit_cell(u, k);
        if !lost(b, c, u, d) {
            let k0 = choose|k0: int| 0 <= k0 < 9 && #[trigger] cand(a, unit_cell(u, k0), d) && !cand(c, unit_cell(u, k0), d);
            if cand(b, unit_cell(u, k0), d) {
                assert(lost(b, c, u, d));
            }
            assert(lost(a, b, u, d));
            assert forall|k2: int| 0 <= k2 < 9 && #[trigger] cand(b, unit_cell(u, k2), d) implies k2 == k by {
                if !cand(c, unit_cell(u, k2), d) {
                    assert(lost(b, c, u, d));
                }
            }
            assert(b[slot(x, d)]);
            assert(only_place(b, u, d, k));
            assert(single(b, x, d));
            assert(cand(c, x, d));
            lemma_single_kept(b, c, x, d);
        }
    }
}

/// What the count of candidates among digits `1..=k` says about them.
pub proof fn lemma_digits_upto(g: Seq<bool>, s: int, k: int)
    requires
        0 <= k <= 9,
    ensures
        digits_upto(g, s, k) <= k,
        digits_upto(g, s, k) > 0 <==> exists|d: int| 1 <= d <= k && #[trigger] cand(g, s, d),
        forall|d: int| #[trigger] single(g, s, d) ==> digits_upto(g, s, k) <= 1,
    decreases k,
{
    if k > 0 {
        lemma_digits_upto(g, s, k - 1);
        if digits_upto(g, s, k) > 0 && !cand(g, s, k) {
            let d = choose|d: int| 1 <= d <= k - 1 && #[trigger] cand(g, s, d);
        }
        assert forall|d: int| #[trigger] single(g, s, d) implies digits_upto(g, s, k) <= 1 by {
            if cand(g, s, k) && digits_upto(g, s, k - 1) > 0 {
                let e = choose|e: int| 1 <= e <= k - 1 && #[trigger] cand(g, s, e);
                assert(e == d && k == d);
            }
        }
    }
}

/// The full grid is consistent.
pub proof fn lemma_full_consistent()
    ensures
        consistent(full()),
{
    let g = full();
    assert forall|s: int| is_cell(s) implies #[trigger] settled(g, s) by {
        assert(cand(g, s, 1));
        assert forall|d: int| #[trigger] single(g, s, d) implies clear_of(g, s, d) by {
            if d == 1 {
                assert(cand(g, s, 2));
            } else {
                assert(cand(g, s, 1));
            }
        }
    }
    assert forall|u: int, d: int| 0 <= u < 27 && is_digit(d) implies #[trigger] placed(g, u, d) by {
        crate::topology::lemma_unit_cells(u, 0, 0);
        assert(cand(g, unit_cell(u, 0), d));
    }
}

/// A cell that held a single digit still holds it once it has shrunk,
/// as long as it is not empty.
pub proof fn lemma_single_kept(a: Seq<bool>, b: Seq<bool>, s: int, d: int)
    requires
        single(a, s, d),
        within(b, a),
        nonempty(b, s),
    ensures
        single(b, s, d),
{
    let e = choose|e: int| #[trigger] cand(b, s, e);
    assert(b[slot(s, e)]);
    assert(cand(a, s, e));
    assert forall|x: int| #[trigger] cand(b, s, x) implies x == d by {
        assert(b[slot(s, x)]);
        assert(cand(a, s, x));
    }
}

/// A consistent grid in which every cell holds one digit is a valid
/// Sudoku grid, and the grid admits it.
pub proof fn lemma_solved_grid(g: Seq<bool>)
    requires
        solved(g),
        consistent(g),
    ensures
        is_solution(grid_of(g)),
        admits(g, grid_of(g)),
{
    let sol = grid_of(g);
    assert forall|s: int| is_cell(s) implies #[trigger] single(g, s, sol[s]) by {
        assert(determined(g, s));
    }
    assert forall|s: int| is_cell(s) implies is_digit(#[trigger] sol[s]) by {
        assert(single(g, s, sol[s]));
    }
    assert forall|s: int, t: int| #[trigger] is_peer(s, t) implies sol[s] != sol[t] by {
        assert(single(g, s, sol[s]) && single(g, t, sol[t]));
        assert(settled(g, s));
        assert(clear_of(g, s, sol[s]));
    }
    assert forall|u: int, d: int| 0 <= u < 27 && is_digit(d) implies #[trigger] unit_holds(sol, u, d) by {
        assert(placed(g, u, d));
        let k = choose|k: int| 0 <= k < 9 && #[trigger] cand(g, unit_cell(u, k), d);
        crate::topology::lemma_unit_cells(u, k, k);
        assert(single(g, unit_cell(u, k), sol[unit_cell(u, k)]));
    }
    assert forall|s: int| is_cell(s) implies #[trigger] cand(g, s, sol[s]) by {
        assert(single(g, s, sol[s]));
    }
}

/// A unit that had a place for a digit still has one after a checked change.
pub proof fn lemma_placed_kept(a: Seq<bool>, b: Seq<bool>, u: int, d: int)
    requires
        propagated(a, b),
        0 <= u < 27,
        is_digit(d),
        placed(a, u, d),
    ensures
        placed(b, u, d),
{
    if !lost(a, b, u, d) {
        let k = choose|k: int| 0 <= k < 9 && #[trigger] cand(a, unit_cell(u, k), d);
        if !cand(b, unit_cell(u, k), d) {
            assert(lost(a, b, u, d));
        }
    }
}

/// Checked changes keep a consistent grid consistent.
pub proof fn lemma_propagated_consistent(a: Seq<bool>, b: Seq<bool>)
    requires
        consistent(a),
        within(b, a),
        propagated(a, b),
    ensures
        consistent(b),
{
    assert forall|s: int| is_cell(s) implies #[trigger] settled(b, s) by {
        if same_cell(a, b, s) {
            assert(settled(a, s));
            let d0 = choose|d: int| #[trigger] cand(a, s, d);
            assert(cand(a, s, d0) == cand(b, s, d0));
            assert forall|d: int| #[trigger] single(b, s, d) implies clear_of(b, s, d) by {
                assert forall|e: int| #[trigger] cand(a, s, e) implies e == d by {
                    assert(cand(a, s, e) == cand(b, s, e));
                }
                assert(cand(a, s, d) == cand(b, s, d));
                assert(single(a, s, d));
            }
        }
    }
    assert forall|u: int, d: int| 0 <= u < 27 && is_digit(d) implies #[trigger] placed(b, u, d) by {
        if !lost(a, b, u, d) {
            assert(placed(a, u, d));
            let k = choose|k: int| 0 <= k < 9 && #[trigger] cand(a, unit_cell(u, k), d);
            if !cand(b, unit_cell(u, k), d) {
                assert(lost(a, b, u, d));
            }
        }
    }
}

} // verus!
