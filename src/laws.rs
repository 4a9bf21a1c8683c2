//! Properties of the engine as a whole, stated over the model and proved.
use vstd::prelude::*;
use crate::topology::{is_cell, is_peer, unit_cell, square_id, lemma_unit_cells, lemma_square_id_injective};
use crate::model::{
    cand, single, settled, consistent, solved, determined, grid_of, is_solution, unit_holds,
    cand_count, lemma_digits_upto, lemma_solved_grid, within, digits_upto, slot,
};
use crate::state::{StartValue, cell_of, encodes, fits};

verus! {

/// In a consistent grid every cell has between one and nine candidates.
pub proof fn lemma_candidate_count_bounds(g: Seq<bool>, s: int)
    requires
        consistent(g),
        is_cell(s),
    ensures
        1 <= cand_count(g, s) <= 9,
{
    lemma_digits_upto(g, s, 9);
    assert(settled(g, s));
    let d = choose|d: int| #[trigger] cand(g, s, d);
}

/// Candidate sets only shrink: a grid within another has no more
/// candidates in any cell.
pub proof fn lemma_candidate_count_shrinks(b: Seq<bool>, a: Seq<bool>, s: int, k: int)
    requires
        within(b, a),
        0 <= k <= 9,
    ensures
        digits_upto(b, s, k) <= digits_upto(a, s, k),
    decreases k,
{
    if k > 0 {
        lemma_candidate_count_shrinks(b, a, s, k - 1);
        if cand(b, s, k) {
            assert(b[slot(s, k)]);
        }
    }
}

/// In a solved, consistent grid every unit holds each of the nine digits
/// exactly once.
pub proof fn lemma_solved_units(g: Seq<bool>, u: int, d: int)
    requires
        solved(g),
        consistent(g),
        0 <= u < 27,
        1 <= d <= 9,
    ensures
        unit_holds(grid_of(g), u, d),
        forall|k1: int, k2: int|
            0 <= k1 < 9 && 0 <= k2 < 9 && #[trigger] grid_of(g)[unit_cell(u, k1)] == d
                && #[trigger] grid_of(g)[unit_cell(u, k2)] == d ==> k1 == k2,
{
    lemma_solved_grid(g);
    let sol = grid_of(g);
    assert forall|k1: int, k2: int|
        0 <= k1 < 9 && 0 <= k2 < 9 && #[trigger] sol[unit_cell(u, k1)] == d
            && #[trigger] sol[unit_cell(u, k2)] == d implies k1 == k2 by {
        if k1 != k2 {
            lemma_unit_cells(u, k1, k2);
            assert(is_peer(unit_cell(u, k1), unit_cell(u, k2)));
        }
    }
}

/// Writing out every cell of a solved, consistent grid as clues gives a
/// puzzle that has a solution, and that solution is the grid itself.
pub proof fn lemma_round_trip(g: Seq<bool>, clues: Seq<StartValue>)
    requires
        solved(g),
        consistent(g),
        encodes(g, clues),
    ensures
        is_solution(grid_of(g)) && fits(grid_of(g), clues),
        forall|sol: Seq<int>| #[trigger] is_solution(sol) && fits(sol, clues) ==> sol == grid_of(g),
{
    lemma_solved_grid(g);
    let sol0 = grid_of(g);
    assert forall|s: int, d: int| is_cell(s) && #[trigger] single(g, s, d) implies sol0[s] == d by {
        assert(determined(g, s));
        assert(single(g, s, sol0[s]));
    }
    assert forall|i: int| 0 <= i < clues.len() && #[trigger] clues[i].1 != 0 implies sol0[cell_of(clues[i].0)] == clues[i].1 as int by {
        let c = cell_of(clues[i].0);
        lemma_square_id_injective(c, c);
        assert(single(g, c, clues[i].1 as int));
    }
    assert forall|sol: Seq<int>| #[trigger] is_solution(sol) && fits(sol, clues) implies sol == sol0 by {
        assert forall|s: int| 0 <= s < 81 implies sol[s] == sol0[s] by {
            assert(determined(g, s));
            let i = choose|i: int| 0 <= i < clues.len() && clues[i].0 == square_id(s);
            lemma_square_id_injective(s, cell_of(clues[i].0));
            let d = choose|d: int| #[trigger] single(g, s, d);
            assert(cell_of(clues[i].0) == s);
            assert(single(g, s, clues[i].1 as int));
            assert(clues[i].1 != 0);
        }
        assert(sol =~= sol0);
    }
}

} // verus!
