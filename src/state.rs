//! A grid state and the propagation engine that shrinks it.
use vstd::prelude::*;
use rand::rngs::ThreadRng;
use crate::random::{shuffle, pick_one};
use crate::topology::{Config, SquareId, is_square_id, square_id, is_cell, is_peer, unit_cell, unit_of, lemma_units_of_cell, lemma_cell_in_units};
use crate::model::{
    is_digit, slot, cand, nonempty, single, clear_of, settled, placed, lost, same_cell, within,
    propagated, is_solution, admits, digits_upto, cand_count, total, consistent, solved, full, determined,
    cells_with, popularity, lemma_digits_upto, lemma_full_consistent, lemma_propagated_consistent,
    lemma_single_kept, lemma_solved_grid, grid_of, lemma_total_within,
    lemma_propagated_refl, lemma_propagated_trans, lemma_within_trans, lemma_placed_kept, only_place,
};

verus! {

/// A digit, or 0 for no clue.
pub type SquareValue = u32;

/// One clue: a cell and its digit.
pub type StartValue = (SquareId, SquareValue);

/// The clues of a puzzle.
pub type StartState = Vec<StartValue>;

/// The cell that an external name stands for.
pub open spec fn cell_of(id: SquareId) -> int {
    choose|s: int| is_cell(s) && square_id(s) == id
}

/// Every clue names a cell.
pub open spec fn names_cells(clues: Seq<StartValue>) -> bool {
    forall|i: int| 0 <= i < clues.len() ==> is_square_id(#[trigger] clues[i].0)
}

/// `sol` puts every non-zero clue's digit in its cell.
pub open spec fn fits(sol: Seq<int>, clues: Seq<StartValue>) -> bool {
    forall|i: int| 0 <= i < clues.len() && #[trigger] clues[i].1 != 0 ==> sol[cell_of(clues[i].0)] == clues[i].1 as int
}

/// Every non-zero clue's cell holds just that digit in `g`.
pub open spec fn shows(g: Seq<bool>, clues: Seq<StartValue>) -> bool {
    forall|i: int| 0 <= i < clues.len() && #[trigger] clues[i].1 != 0 ==> single(g, cell_of(clues[i].0), clues[i].1 as int)
}

/// `clues` lists, in row-major order, each cell of `g` that holds a single
/// digit, with that digit.
pub open spec fn encodes(g: Seq<bool>, clues: Seq<StartValue>) -> bool {
    &&& forall|i: int| 0 <= i < clues.len() ==> is_square_id(#[trigger] clues[i].0)
        && single(g, cell_of(clues[i].0), clues[i].1 as int)
    &&& forall|s: int| is_cell(s) && #[trigger] determined(g, s) ==> exists|i: int| 0 <= i < clues.len() && clues[i].0 == square_id(s)
    &&& forall|i: int, j: int| 0 <= i < j < clues.len() ==> cell_of(#[trigger] clues[i].0) < cell_of(#[trigger] clues[j].0)
}

/// Some clue among `clues` has digit `d`.
pub open spec fn has_clue_digit(clues: Seq<StartValue>, d: int) -> bool {
    exists|i: int| 0 <= i < clues.len() && #[trigger] clues[i].1 as int == d
}

/// How many of the digits `1..=k` occur among the clues.
pub open spec fn clue_digits(clues: Seq<StartValue>, k: int) -> nat
    decreases k,
{
    if k <= 0 {
        0
    } else {
        clue_digits(clues, k - 1) + if has_clue_digit(clues, k) {
            1nat
        } else {
            0nat
        }
    }
}

/// How many of the nine digits occur among the clues.
pub fn distinct_digits(clues: &StartState) -> (n: usize)
    ensures
        n == clue_digits(clues@, 9),
        n <= 9,
{
    let mut n: usize = 0;
    let mut d: u32 = 1;
    while d <= 9
        invariant
            1 <= d <= 10,
            n == clue_digits(clues@, d - 1),
            n < d,
        decreases 10 - d,
    {
        let mut found = false;
        let mut i: usize = 0;
        while i < clues.len()
            invariant
                i <= clues@.len(),
                found == exists|q: int| 0 <= q < i && #[trigger] clues@[q].1 as int == d,
            decreases clues@.len() - i,
        {
            if clues[i].1 == d {
                found = true;
            }
            i = i + 1;
        }
        if found {
            n = n + 1;
        }
        d = d + 1;
    }
    n
}

/// Candidate sets of all cells, over a shared topology.
#[derive(Clone, Debug)]
pub struct State<'a> {
    config: &'a Config,
    values: Vec<bool>,
}

impl<'a> View for State<'a> {
    type V = Seq<bool>;

    closed spec fn view(&self) -> Seq<bool> {
        self.values@
    }
}

/// Nothing that `sol` allows in `a` (beyond the one thing excluded by the
/// caller) is lost in `b`.
pub open spec fn keeps(a: Seq<bool>, b: Seq<bool>, sq: int, value: int, same: bool) -> bool {
    forall|sol: Seq<int>|
        #[trigger] is_solution(sol) && admits(a, sol) && (sol[sq] == value) == same ==> admits(b, sol)
}

/// What removing `value` from `sq` leaves behind, right after the removal.
proof fn lemma_removed(s0: Seq<bool>, s1: Seq<bool>, sq: int, value: int)
    requires
        s0.len() == 729,
        is_cell(sq),
        is_digit(value),
        cand(s0, sq, value),
        s1 == s0.update(slot(sq, value), false),
    ensures
        within(s1, s0),
        total(s1) < total(s0),
        !cand(s1, sq, value),
        forall|t: int, d: int| (t != sq || d != value) ==> #[trigger] cand(s1, t, d) == cand(s0, t, d),
        forall|sol: Seq<int>| admits(s0, sol) && sol[sq] != value ==> #[trigger] admits(s1, sol),
{
    assert forall|t: int, d: int| (t != sq || d != value) implies #[trigger] cand(s1, t, d) == cand(s0, t, d) by {
        if is_cell(t) && is_digit(d) {
            assert(slot(t, d) != slot(sq, value));
        }
    }
    assert(s0[slot(sq, value)] && !s1[slot(sq, value)]);
    lemma_total_within(s1, s0);
    assert forall|sol: Seq<int>| admits(s0, sol) && sol[sq] != value implies #[trigger] admits(s1, sol) by {
        assert forall|s: int| is_cell(s) implies #[trigger] cand(s1, s, sol[s]) by {
            assert(cand(s0, s, sol[s]));
        }
    }
}

/// The checks made by `eliminate` after removing `value` from `sq` add up
/// to a checked change.
proof fn lemma_eliminate_checked(
    s0: Seq<bool>,
    s1: Seq<bool>,
    fin: Seq<bool>,
    sq: int,
    value: int,
    one: bool,
    d2: int,
)
    requires
        within(s1, s0),
        within(fin, s1),
        is_cell(sq),
        is_digit(value),
        !cand(s1, sq, value),
        forall|t: int, d: int| (t != sq || d != value) ==> #[trigger] cand(s1, t, d) == cand(s0, t, d),
        nonempty(s1, sq),
        one ==> single(s1, sq, d2) && clear_of(fin, sq, d2),
        !one ==> forall|d: int| !#[trigger] single(s1, sq, d),
        propagated(s1, fin),
        forall|j: int| 0 <= j < 3 ==> #[trigger] placed(fin, unit_of(sq, j), value),
        forall|j: int, k: int|
            0 <= j < 3 && !lost(s1, fin, unit_of(sq, j), value) && #[trigger] only_place(fin, unit_of(sq, j), value, k)
                ==> single(fin, unit_cell(unit_of(sq, j), k), value),
    ensures
        propagated(s0, fin),
{
    assert forall|u: int, d: int, k: int|
        0 <= u < 27 && is_digit(d) && #[trigger] lost(s0, fin, u, d) && #[trigger] only_place(fin, u, d, k)
            implies single(fin, unit_cell(u, k), d) by {
        if !lost(s1, fin, u, d) {
            let k0 = choose|k0: int| 0 <= k0 < 9 && #[trigger] cand(s0, unit_cell(u, k0), d) && !cand(fin, unit_cell(u, k0), d);
            if cand(s1, unit_cell(u, k0), d) {
                assert(lost(s1, fin, u, d));
            }
            assert(unit_cell(u, k0) == sq && d == value);
            lemma_units_of_cell(u, k0);
            if u == unit_of(sq, 0) {
                assert(only_place(fin, unit_of(sq, 0), value, k));
            } else if u == unit_of(sq, 1) {
                assert(only_place(fin, unit_of(sq, 1), value, k));
            } else {
                assert(only_place(fin, unit_of(sq, 2), value, k));
            }
        }
    }
    assert forall|s: int| is_cell(s) && !#[trigger] same_cell(s0, fin, s) implies settled(fin, s) by {
        if same_cell(s1, fin, s) {
            if s != sq {
                assert forall|d: int| #[trigger] cand(s0, s, d) == cand(fin, s, d) by {
                    assert(cand(s1, s, d) == cand(s0, s, d));
                    assert(cand(s1, s, d) == cand(fin, s, d));
                }
            }
            let d0 = choose|d: int| #[trigger] cand(s1, sq, d);
            assert(cand(s1, sq, d0) == cand(fin, sq, d0));
            assert forall|d: int| #[trigger] single(fin, sq, d) implies clear_of(fin, sq, d) by {
                assert forall|e: int| #[trigger] cand(s1, sq, e) implies e == d by {
                    assert(cand(s1, sq, e) == cand(fin, sq, e));
                }
                assert(cand(s1, sq, d) == cand(fin, sq, d));
                assert(single(s1, sq, d));
            }
        }
    }
    assert forall|u: int, d: int| 0 <= u < 27 && is_digit(d) && #[trigger] lost(s0, fin, u, d) implies placed(fin, u, d) by {
        if !lost(s1, fin, u, d) {
            let k = choose|k: int| 0 <= k < 9 && #[trigger] cand(s0, unit_cell(u, k), d) && !cand(fin, unit_cell(u, k), d);
            if cand(s1, unit_cell(u, k), d) {
                assert(lost(s1, fin, u, d));
            }
            assert(unit_cell(u, k) == sq && d == value);
            lemma_units_of_cell(u, k);
            if u == unit_of(sq, 0) {
                assert(placed(fin, unit_of(sq, 0), value));
            } else if u == unit_of(sq, 1) {
                assert(placed(fin, unit_of(sq, 1), value));
            } else {
                assert(placed(fin, unit_of(sq, 2), value));
            }
        }
    }
}

/// One unit step of `eliminate` keeps the hidden-single rule for the units
/// handled so far.
proof fn lemma_hidden_single_step(
    s1: Seq<bool>,
    cur: Seq<bool>,
    new: Seq<bool>,
    sq: int,
    j: int,
    value: int,
    pl: Seq<usize>,
)
    requires
        within(cur, s1),
        within(new, cur),
        is_cell(sq),
        0 <= j < 3,
        is_digit(value),
        forall|i: int| 0 <= i < pl.len() ==> #[trigger] pl[i] < 9 && cand(cur, unit_cell(unit_of(sq, j), pl[i] as int), value),
        forall|k: int| 0 <= k < 9 && #[trigger] cand(cur, unit_cell(unit_of(sq, j), k), value) ==> pl.contains(k as usize),
        forall|p: int, q: int| 0 <= p < q < pl.len() ==> pl[p] < pl[q],
        pl.len() == 1 ==> single(new, unit_cell(unit_of(sq, j), pl[0] as int), value),
        pl.len() != 1 ==> new == cur,
        forall|q: int, k: int|
            0 <= q < j && !lost(s1, cur, unit_of(sq, q), value)
                && #[trigger] only_place(cur, unit_of(sq, q), value, k)
                ==> single(cur, unit_cell(unit_of(sq, q), k), value),
    ensures
        forall|q: int, k: int|
            0 <= q < j + 1 && !lost(s1, new, unit_of(sq, q), value)
                && #[trigger] only_place(new, unit_of(sq, q), value, k)
                ==> single(new, unit_cell(unit_of(sq, q), k), value),
{
    assert forall|q: int, k: int|
        0 <= q < j + 1 && !lost(s1, new, unit_of(sq, q), value)
            && #[trigger] only_place(new, unit_of(sq, q), value, k)
            implies single(new, unit_cell(unit_of(sq, q), k), value) by {
        let u = unit_of(sq, q);
        lemma_cell_in_units(sq, q);
        crate::topology::lemma_unit_cells(u, k, k);
        let x = unit_cell(u, k);
        assert(new[slot(x, value)]);
        assert(cand(cur, x, value));
        assert forall|k2: int| 0 <= k2 < 9 && #[trigger] cand(cur, unit_cell(u, k2), value) implies k2 == k by {
            crate::topology::lemma_unit_cells(u, k2, k2);
            assert(cur[slot(unit_cell(u, k2), value)]);
            assert(cand(s1, unit_cell(u, k2), value));
            if !cand(new, unit_cell(u, k2), value) {
                assert(lost(s1, new, u, value));
            }
        }
        assert(only_place(cur, u, value, k));
        if q < j {
            if lost(s1, cur, u, value) {
                let k0 = choose|k0: int| 0 <= k0 < 9 && #[trigger] cand(s1, unit_cell(u, k0), value) && !cand(cur, unit_cell(u, k0), value);
                crate::topology::lemma_unit_cells(u, k0, k0);
                if cand(new, unit_cell(u, k0), value) {
                    assert(new[slot(unit_cell(u, k0), value)]);
                }
                assert(lost(s1, new, u, value));
            }
            assert(single(cur, x, value));
            lemma_single_kept(cur, new, x, value);
        } else {
            assert(pl.contains(k as usize));
            if pl.len() != 1 {
                assert(pl.len() >= 2);
                assert(pl[0] < pl[1]);
                assert(cand(cur, unit_cell(u, pl[0] as int), value));
                assert(cand(cur, unit_cell(u, pl[1] as int), value));
            }
            assert(pl[0] as int == k);
        }
    }
}

impl<'a> State<'a> {
    pub closed spec fn wf(&self) -> bool {
        self.config.wf() && self@.len() == 729
    }

    pub closed spec fn topology(&self) -> &'a Config {
        self.config
    }

    /// Whether `d` is a candidate of cell `s`.
    fn has(&self, s: usize, d: u32) -> (r: bool)
        requires
            self.wf(),
            s < 81,
        ensures
            r == cand(self@, s as int, d as int),
    {
        if 1 <= d && d <= 9 {
            self.values[9 * s + d as usize - 1]
        } else {
            false
        }
    }

    /// The candidates of cell `s`, in increasing order.
    pub fn candidates(&self, s: usize) -> (r: Vec<u32>)
        requires
            self.wf(),
            s < 81,
        ensures
            r@.len() == cand_count(self@, s as int),
            forall|i: int| 0 <= i < r@.len() ==> cand(self@, s as int, #[trigger] r@[i] as int),
            forall|d: int| #[trigger] cand(self@, s as int, d) ==> exists|i: int| 0 <= i < r@.len() && r@[i] == d,
            forall|i: int, j: int| 0 <= i < j < r@.len() ==> r@[i] < r@[j],
    {
        let mut r: Vec<u32> = Vec::new();
        let mut d: u32 = 1;
        while d <= 9
            invariant
                self.wf(),
                s < 81,
                1 <= d <= 10,
                r@.len() == digits_upto(self@, s as int, d - 1),
                forall|i: int| 0 <= i < r@.len() ==> cand(self@, s as int, #[trigger] r@[i] as int) && r@[i] < d,
                forall|e: int| 1 <= e < d && #[trigger] cand(self@, s as int, e) ==> exists|i: int| 0 <= i < r@.len() && r@[i] == e,
                forall|i: int, j: int| 0 <= i < j < r@.len() ==> r@[i] < r@[j],
            decreases 10 - d,
        {
            let ghost before = r@;
            if self.has(s, d) {
                r.push(d);
                assert(r@[r@.len() - 1] == d);
                assert(forall|i: int| 0 <= i < before.len() ==> r@[i] == #[trigger] before[i]);
            }
            proof {
                assert forall|e: int| 1 <= e < d + 1 && #[trigger] cand(self@, s as int, e) implies exists|i: int| 0 <= i < r@.len() && r@[i] == e by {
                    if e == d {
                        assert(r@[r@.len() - 1] == d);
                    } else {
                        let i = choose|i: int| 0 <= i < before.len() && before[i] == e;
                        assert(r@[i] == before[i]);
                    }
                }
            }
            d = d + 1;
        }
        r
    }

    /// Removes `value` from the candidates of `square`, then propagates: a
    /// cell left with one digit takes it from its peers, and a unit left
    /// with one place for `value` puts it there. Fails on a contradiction.
    pub fn eliminate(&mut self, square: usize, value: u32) -> (r: bool)
        requires
            old(self).wf(),
            square < 81,
            is_digit(value as int),
        ensures
            final(self).wf(),
            final(self).topology() == old(self).topology(),
            within(final(self)@, old(self)@),
            r ==> !cand(final(self)@, square as int, value as int),
            r ==> propagated(old(self)@, final(self)@),
            !cand(old(self)@, square as int, value as int) ==> r && final(self)@ == old(self)@,
            keeps(old(self)@, final(self)@, square as int, value as int, false),
            forall|sol: Seq<int>|
                #[trigger] is_solution(sol) && admits(old(self)@, sol) && sol[square as int] != value ==> r,
        decreases total(old(self)@), 1int,
    {
        let config = self.config;
        let i: usize = 9 * square + value as usize - 1;
        if !self.values[i] {
            return true;
        }
        let ghost s0 = self@;
        self.values.set(i, false);
        let ghost s1 = self@;
        proof {
            lemma_removed(s0, s1, square as int, value as int);
        }
        let vs = self.candidates(square);
        if vs.len() == 0 {
            assert forall|sol: Seq<int>| #[trigger] is_solution(sol) && admits(s0, sol) && sol[square as int] != value implies false by {
                assert(admits(s1, sol));
                assert(cand(s1, square as int, sol[square as int]));
            }
            return false;
        }
        proof {
            assert(cand(s1, square as int, vs@[0] as int));
            lemma_propagated_refl(s1);
        }
        let one: bool = vs.len() == 1;
        let ghost d2: int = vs@[0] as int;
        if !one {
            assert forall|d: int| !#[trigger] single(s1, square as int, d) by {
                if single(s1, square as int, d) {
                    assert(cand(s1, square as int, vs@[1] as int));
                    assert(cand(s1, square as int, vs@[0] as int));
                }
            }
        }
        if one {
            let d: u32 = vs[0];
            assert(single(s1, square as int, d as int));
            let peers: &Vec<usize> = &config.peers[square];
            let mut p: usize = 0;
            while p < peers.len()
                invariant
                    self.wf(),
                    self.config == config,
                    config == old(self).config,
                    s0 == old(self)@,
                    cand(s0, square as int, value as int),
                    !cand(s1, square as int, value as int),
                    forall|t: int, d: int| (t != square || d != value) ==> #[trigger] cand(s1, t, d) == cand(s0, t, d),
                    forall|sol: Seq<int>| admits(s0, sol) && sol[square as int] != value ==> #[trigger] admits(s1, sol),
                    nonempty(s1, square as int),

                    within(s1, s0),
                    within(self@, s0),
                    config.wf(),
                    square < 81,
                    peers == &config.peers@[square as int],
                    d == d2,
                    single(s1, square as int, d2),
                    within(self@, s1),
                    propagated(s1, self@),
                    total(self@) < total(s0),
                    p <= peers@.len(),
                    forall|q: int| 0 <= q < p ==> !cand(self@, #[trigger] peers@[q] as int, d2),
                    keeps(s0, self@, square as int, value as int, false),
                decreases peers@.len() - p,
            {
                let t: usize = peers[p];
                assert(is_peer(square as int, t as int));
                let ghost cur = self@;
                let ok = self.eliminate(t, d);
                proof {
                    lemma_within_trans(self@, cur, s0);
                    if ok {
                        lemma_propagated_trans(s1, cur, self@);
                    }
                    lemma_total_within(self@, cur);
                    assert forall|sol: Seq<int>| #[trigger] is_solution(sol) && admits(s0, sol) && sol[square as int] != value implies admits(cur, sol) && sol[t as int] != d2 by {
                        assert(admits(s1, sol));
                        assert(cand(s1, square as int, sol[square as int]));
                    }
                }
                if !ok {
                    return false;
                }
                p = p + 1;
            }
            assert forall|t: int| #[trigger] is_peer(square as int, t) implies !cand(self@, t, d2) by {
                assert(peers@.contains(t as usize));
            }
        }
        let ghost after_peers = self@;
        let units: &Vec<usize> = &config.units[square];
        let mut j: usize = 0;
        while j < 3
            invariant
                self.wf(),
                self.config == config,
                config == old(self).config,
                s0 == old(self)@,
                cand(s0, square as int, value as int),
                !cand(s1, square as int, value as int),
                forall|t: int, d: int| (t != square || d != value) ==> #[trigger] cand(s1, t, d) == cand(s0, t, d),
                forall|sol: Seq<int>| admits(s0, sol) && sol[square as int] != value ==> #[trigger] admits(s1, sol),
                nonempty(s1, square as int),
                one ==> single(s1, square as int, d2),
                !one ==> forall|d: int| !#[trigger] single(s1, square as int, d),
                within(s1, s0),
                within(self@, s0),
                config.wf(),
                square < 81,
                is_digit(value as int),
                units == &config.units@[square as int],
                within(self@, s1),
                propagated(s1, self@),
                total(self@) < total(s0),
                one ==> clear_of(self@, square as int, d2),
                j <= 3,
                forall|q: int| 0 <= q < j ==> #[trigger] placed(self@, unit_of(square as int, q), value as int),
                forall|q: int, k: int|
                    0 <= q < j && !lost(s1, self@, unit_of(square as int, q), value as int)
                        && #[trigger] only_place(self@, unit_of(square as int, q), value as int, k)
                        ==> single(self@, unit_cell(unit_of(square as int, q), k), value as int),
                keeps(s0, self@, square as int, value as int, false),
            decreases 3 - j,
        {
            let u: usize = units[j];
            proof {
                lemma_cell_in_units(square as int, j as int);
            }
            let places = self.places(&config.unitlist[u], u, value);
            if places.len() == 0 {
                assert forall|sol: Seq<int>| #[trigger] is_solution(sol) && admits(s0, sol) && sol[square as int] != value implies false by {
                    assert(admits(self@, sol));
                    assert(crate::model::unit_holds(sol, u as int, value as int));
                    let k = choose|k: int| 0 <= k < 9 && #[trigger] sol[unit_cell(u as int, k)] == value;
                    crate::topology::lemma_unit_cells(u as int, k, k);
                    assert(cand(self@, unit_cell(u as int, k), value as int));
                    assert(places@.contains(k as usize));
                }
                return false;
            }
            let ghost cur = self@;
            assert(cand(cur, unit_cell(u as int, places@[0] as int), value as int));
            assert(placed(cur, u as int, value as int));
            if places.len() == 1 {
                let c: usize = config.unitlist[u][places[0]];
                let ok = self.assign(c, value);
                proof {
                    lemma_within_trans(self@, cur, s0);
                    if ok {
                        lemma_propagated_trans(s1, cur, self@);
                    }
                    lemma_total_within(self@, cur);
                    assert forall|sol: Seq<int>| #[trigger] is_solution(sol) && admits(s0, sol) && sol[square as int] != value implies admits(cur, sol) && sol[c as int] == value by {
                        assert(crate::model::unit_holds(sol, u as int, value as int));
                        let k = choose|k: int| 0 <= k < 9 && #[trigger] sol[unit_cell(u as int, k)] == value;
                        crate::topology::lemma_unit_cells(u as int, k, k);
                        assert(cand(cur, unit_cell(u as int, k), value as int));
                        assert(places@.contains(k as usize));
                        assert(places@[0] == k);
                    }
                    if ok {
                        assert forall|q: int| 0 <= q < j implies #[trigger] placed(self@, unit_of(square as int, q), value as int) by {
                            lemma_cell_in_units(square as int, q);
                            lemma_placed_kept(cur, self@, unit_of(square as int, q), value as int);
                        }
                        assert(nonempty(cur, c as int));
                        assert(cand(self@, unit_cell(u as int, places@[0] as int), value as int));
                    }
                }
                if !ok {
                    return false;
                }
            }
            assert(u == unit_of(square as int, j as int));
            proof {
                lemma_hidden_single_step(s1, cur, self@, square as int, j as int, value as int, places@);
            }
            j = j + 1;
        }
        proof {
            lemma_eliminate_checked(s0, s1, self@, square as int, value as int, one, d2);
        }
        true
    }

    /// The positions within unit `u` of the cells that still have `value`
    /// as a candidate, in increasing order.
    fn places(&self, unit: &Vec<usize>, u: usize, value: u32) -> (r: Vec<usize>)
        requires
            self.wf(),
            u < 27,
            unit == &self.config.unitlist@[u as int],
        ensures
            forall|i: int| 0 <= i < r@.len() ==> #[trigger] r@[i] < 9 && cand(self@, unit_cell(u as int, r@[i] as int), value as int),
            forall|k: int| 0 <= k < 9 && #[trigger] cand(self@, unit_cell(u as int, k), value as int) ==> r@.contains(k as usize),
            forall|p: int, q: int| 0 <= p < q < r@.len() ==> r@[p] < r@[q],
    {
        let mut r: Vec<usize> = Vec::new();
        let mut k: usize = 0;
        while k < 9
            invariant
                self.wf(),
                u < 27,
                unit == &self.config.unitlist@[u as int],
                k <= 9,
                forall|i: int| 0 <= i < r@.len() ==> #[trigger] r@[i] < k && cand(self@, unit_cell(u as int, r@[i] as int), value as int),
                forall|k2: int| 0 <= k2 < k && #[trigger] cand(self@, unit_cell(u as int, k2), value as int) ==> r@.contains(k2 as usize),
                forall|p: int, q: int| 0 <= p < q < r@.len() ==> r@[p] < r@[q],
            decreases 9 - k,
        {
            let c: usize = unit[k];
            assert(c == unit_cell(u as int, k as int));
            proof {
                crate::topology::lemma_unit_cells(u as int, k as int, k as int);
            }
            let ghost before = r@;
            if self.has(c, value) {
                r.push(k);
                assert(r@[r@.len() - 1] == k);
                assert(forall|i: int| 0 <= i < before.len() ==> r@[i] == #[trigger] before[i]);
            }
            proof {
                assert forall|k2: int| 0 <= k2 < k + 1 && #[trigger] cand(self@, unit_cell(u as int, k2), value as int) implies r@.contains(k2 as usize) by {
                    if k2 == k {
                        assert(r@[r@.len() - 1] == k);
                    } else {
                        let i = choose|i: int| 0 <= i < before.len() && before[i] == k2 as usize;
                        assert(r@[i] == before[i]);
                    }
                }
            }
            k = k + 1;
        }
        r
    }

    /// Makes `value` the only candidate of `square` by eliminating every
    /// other one. Fails on a contradiction.
    pub fn assign(&mut self, square: usize, value: u32) -> (r: bool)
        requires
            old(self).wf(),
            square < 81,
        ensures
            final(self).wf(),
            final(self).topology() == old(self).topology(),
            within(final(self)@, old(self)@),
            r ==> propagated(old(self)@, final(self)@),
            r ==> forall|d: int| d != value ==> !#[trigger] cand(final(self)@, square as int, d),
            r && nonempty(old(self)@, square as int) ==> single(final(self)@, square as int, value as int),
            single(old(self)@, square as int, value as int) ==> r && final(self)@ == old(self)@,
            keeps(old(self)@, final(self)@, square as int, value as int, true),
            forall|sol: Seq<int>|
                #[trigger] is_solution(sol) && admits(old(self)@, sol) && sol[square as int] == value ==> r,
        decreases total(old(self)@), 2int,
    {
        let ghost s0 = self@;
        let vs = self.candidates(square);
        proof {
            lemma_propagated_refl(s0);
        }
        let mut i: usize = 0;
        while i < vs.len()
            invariant
                self.wf(),
                self.config == old(self).config,
                s0 == old(self)@,
                square < 81,
                forall|q: int| 0 <= q < vs@.len() ==> cand(s0, square as int, #[trigger] vs@[q] as int),
                within(self@, s0),
                propagated(s0, self@),
                total(self@) <= total(s0),
                i <= vs@.len(),
                forall|q: int| 0 <= q < i && #[trigger] vs@[q] != value ==> !cand(self@, square as int, vs@[q] as int),
                keeps(s0, self@, square as int, value as int, true),
                single(s0, square as int, value as int) ==> self@ == s0,
            decreases vs@.len() - i,
        {
            let d: u32 = vs[i];
            if d != value {
                let ghost cur = self@;
                let ok = self.eliminate(square, d);
                proof {
                    lemma_within_trans(self@, cur, s0);
                    if ok {
                        lemma_propagated_trans(s0, cur, self@);
                    }
                    lemma_total_within(self@, cur);
                }
                if !ok {
                    return false;
                }
            }
            i = i + 1;
        }
        assert forall|d: int| d != value implies !#[trigger] cand(self@, square as int, d) by {
            if cand(self@, square as int, d) {
                assert(cand(s0, square as int, d));
                let q = choose|q: int| 0 <= q < vs@.len() && vs@[q] == d;
                assert(vs@[q] != value);
            }
        }
        proof {
            if nonempty(s0, square as int) {
                if same_cell(s0, self@, square as int) {
                    let d0 = choose|d: int| #[trigger] cand(s0, square as int, d);
                    assert(cand(s0, square as int, d0) == cand(self@, square as int, d0));
                } else {
                    assert(settled(self@, square as int));
                }
            }
        }
        true
    }

    /// A grid over `config` in which every cell still has all nine digits.
    pub fn new(config: &'a Config) -> (r: State<'a>)
        requires
            config.wf(),
        ensures
            r.wf(),
            r@ == full(),
            r.topology() == config,
            consistent(r@),
    {
        let mut values: Vec<bool> = Vec::new();
        let mut i: usize = 0;
        while i < 729
            invariant
                i <= 729,
                values@.len() == i,
                forall|j: int| 0 <= j < i ==> #[trigger] values@[j],
            decreases 729 - i,
        {
            values.push(true);
            i = i + 1;
        }
        assert(values@ =~= full());
        proof {
            lemma_full_consistent();
        }
        State { config, values }
    }

    /// A second grid with the same candidates over the same topology.
    fn duplicate(&self) -> (r: State<'a>)
        requires
            self.wf(),
        ensures
            r.wf(),
            r@ == self@,
            r.config == self.config,
    {
        let mut values: Vec<bool> = Vec::new();
        let mut i: usize = 0;
        while i < 729
            invariant
                self.wf(),
                i <= 729,
                values@.len() == i,
                forall|j: int| 0 <= j < i ==> #[trigger] values@[j] == self@[j],
            decreases 729 - i,
        {
            values.push(self.values[i]);
            i = i + 1;
        }
        assert(values@ =~= self@);
        State { config: self.config, values }
    }

    /// The size of the candidate set of cell `s`.
    fn size(&self, s: usize) -> (n: usize)
        requires
            self.wf(),
            s < 81,
        ensures
            n == cand_count(self@, s as int),
            n <= 9,
            (n == 0) == !nonempty(self@, s as int),
            (n == 1) == determined(self@, s as int),
    {
        let vs = self.candidates(s);
        proof {
            lemma_digits_upto(self@, s as int, 9);
            if vs@.len() == 1 {
                assert(single(self@, s as int, vs@[0] as int));
            }
            if vs@.len() > 0 {
                assert(cand(self@, s as int, vs@[0] as int));
            }
        }
        vs.len()
    }

    /// Every cell holds exactly one digit.
    pub fn is_solved(&self) -> (r: bool)
        requires
            self.wf(),
        ensures
            r == solved(self@),
    {
        let mut s: usize = 0;
        while s < 81
            invariant
                self.wf(),
                s <= 81,
                forall|t: int| 0 <= t < s ==> #[trigger] determined(self@, t),
            decreases 81 - s,
        {
            if self.size(s) != 1 {
                return false;
            }
            s = s + 1;
        }
        true
    }

    /// The unsolved cell with the fewest candidates, the first one on ties.
    fn fewest(&self) -> (r: usize)
        requires
            self.wf(),
            consistent(self@),
            !solved(self@),
        ensures
            r < 81,
            cand_count(self@, r as int) > 1,
            forall|t: int| is_cell(t) && #[trigger] cand_count(self@, t) > 1 ==> cand_count(self@, r as int) <= cand_count(self@, t),
            forall|t: int| 0 <= t < r && #[trigger] cand_count(self@, t) > 1 ==> cand_count(self@, r as int) < cand_count(self@, t),
    {
        let mut best: usize = 81;
        let mut best_n: usize = 10;
        let mut s: usize = 0;
        while s < 81
            invariant
                self.wf(),
                consistent(self@),
                !solved(self@),
                s <= 81,
                best < 81 ==> best < s && best_n == cand_count(self@, best as int) && best_n > 1,
                best <= 81,
                best == 81 ==> best_n == 10,
                best_n <= 10,
                forall|t: int| 0 <= t < s && #[trigger] cand_count(self@, t) > 1 ==> best < 81 && best_n <= cand_count(self@, t),
                best < 81 ==> forall|t: int| 0 <= t < best && #[trigger] cand_count(self@, t) > 1 ==> best_n < cand_count(self@, t),
                best == 81 ==> forall|t: int| 0 <= t < s ==> #[trigger] determined(self@, t),
            decreases 81 - s,
        {
            let n = self.size(s);
            let ghost ob = best;
            let ghost obn = best_n;
            if n > 1 && n < best_n {
                best = s;
                best_n = n;
            }
            proof {
                assert(settled(self@, s as int));
                assert forall|t: int| 0 <= t < s + 1 && #[trigger] cand_count(self@, t) > 1 implies best < 81 && best_n <= cand_count(self@, t) by {
                    if t < s {
                        assert(ob < 81 && obn <= cand_count(self@, t));
                    } else {
                        assert(t == s);
                        assert(n == cand_count(self@, t));
                        assert(ob == 81 ==> obn == 10);
                        assert(n <= 9);
                        assert(best < 81);
                        assert(best_n <= n);
                    }
                }
                if best == 81 {
                    assert(ob == 81 && obn == 10);
                    assert(n <= 1);
                    assert(n != 0);
                    assert(determined(self@, s as int));
                }
                if best < 81 {
                    assert forall|t: int| 0 <= t < best && #[trigger] cand_count(self@, t) > 1 implies best_n < cand_count(self@, t) by {
                        if best == s {
                            assert(t < s);
                            assert(ob < 81 && obn <= cand_count(self@, t));
                        }
                    }
                }
            }
            s = s + 1;
        }
        proof {
            if best == 81 {
                assert(solved(self@));
            }
        }
        best
    }

    /// How many cells still have `d` as a candidate.
    fn count_cells_with(&self, d: u32) -> (n: usize)
        requires
            self.wf(),
        ensures
            n == popularity(self@, d as int),
            n <= 81,
    {
        let mut n: usize = 0;
        let mut s: usize = 0;
        while s < 81
            invariant
                self.wf(),
                s <= 81,
                n == cells_with(self@, d as int, s as int),
                n <= s,
            decreases 81 - s,
        {
            if self.has(s, d) {
                n = n + 1;
            }
            s = s + 1;
        }
        n
    }

    /// The candidates of `square`, least popular first; digits of equal
    /// popularity keep their increasing order.
    fn sort_values(&self, square: usize) -> (r: Vec<u32>)
        requires
            self.wf(),
            square < 81,
        ensures
            forall|i: int| 0 <= i < r@.len() ==> cand(self@, square as int, #[trigger] r@[i] as int),
            forall|d: int| #[trigger] cand(self@, square as int, d) ==> exists|i: int| 0 <= i < r@.len() && r@[i] == d,
            forall|i: int, j: int| 0 <= i < j < r@.len() ==> popularity(self@, #[trigger] r@[i] as int) < popularity(self@, #[trigger] r@[j] as int)
                || (popularity(self@, r@[i] as int) == popularity(self@, r@[j] as int) && r@[i] < r@[j]),
    {
        let vs = self.candidates(square);
        let mut pops: Vec<usize> = Vec::new();
        let mut i: usize = 0;
        while i < vs.len()
            invariant
                self.wf(),
                i <= vs@.len(),
                pops@.len() == i,
                forall|q: int| 0 <= q < i ==> #[trigger] pops@[q] == popularity(self@, vs@[q] as int) && pops@[q] <= 81,
            decreases vs@.len() - i,
        {
            let n = self.count_cells_with(vs[i]);
            pops.push(n);
            i = i + 1;
        }
        let mut r: Vec<u32> = Vec::new();
        let mut c: usize = 0;
        while c <= 81
            invariant
                self.wf(),
                square < 81,
                c <= 82,
                pops@.len() == vs@.len(),
                forall|q: int| 0 <= q < vs@.len() ==> #[trigger] pops@[q] == popularity(self@, vs@[q] as int) && pops@[q] <= 81,
                forall|q: int| 0 <= q < vs@.len() ==> cand(self@, square as int, #[trigger] vs@[q] as int),
                forall|d: int| #[trigger] cand(self@, square as int, d) ==> exists|q: int| 0 <= q < vs@.len() && vs@[q] == d,
                forall|p: int, q: int| 0 <= p < q < vs@.len() ==> vs@[p] < vs@[q],
                forall|i: int| 0 <= i < r@.len() ==> cand(self@, square as int, #[trigger] r@[i] as int) && popularity(self@, r@[i] as int) < c,
                forall|q: int| 0 <= q < vs@.len() && pops@[q] < c ==> #[trigger] r@.contains(vs@[q]),
                forall|i: int, j: int| 0 <= i < j < r@.len() ==> popularity(self@, #[trigger] r@[i] as int) < popularity(self@, #[trigger] r@[j] as int)
                    || (popularity(self@, r@[i] as int) == popularity(self@, r@[j] as int) && r@[i] < r@[j]),
            decreases 82 - c,
        {
            let ghost start = r@;
            let mut q: usize = 0;
            while q < vs.len()
                invariant
                    self.wf(),
                    square < 81,
                    c <= 81,
                    q <= vs@.len(),
                    pops@.len() == vs@.len(),
                    forall|q2: int| 0 <= q2 < vs@.len() ==> #[trigger] pops@[q2] == popularity(self@, vs@[q2] as int) && pops@[q2] <= 81,
                    forall|q2: int| 0 <= q2 < vs@.len() ==> cand(self@, square as int, #[trigger] vs@[q2] as int),
                    forall|p: int, q2: int| 0 <= p < q2 < vs@.len() ==> vs@[p] < vs@[q2],
                    start.len() <= r@.len(),
                    forall|i: int| 0 <= i < start.len() ==> #[trigger] r@[i] == start[i],
                    forall|i: int| 0 <= i < start.len() ==> popularity(self@, #[trigger] start[i] as int) < c,
                    forall|i: int| start.len() <= i < r@.len() ==> popularity(self@, #[trigger] r@[i] as int) == c
                        && exists|q2: int| 0 <= q2 < q && vs@[q2] == r@[i],
                    forall|i: int| 0 <= i < r@.len() ==> cand(self@, square as int, #[trigger] r@[i] as int) && popularity(self@, r@[i] as int) <= c,
                    forall|q2: int| 0 <= q2 < vs@.len() && pops@[q2] < c ==> #[trigger] r@.contains(vs@[q2]),
                    forall|q2: int| 0 <= q2 < q && pops@[q2] == c ==> #[trigger] r@.contains(vs@[q2]),
                    forall|i: int, j: int| 0 <= i < j < r@.len() ==> popularity(self@, #[trigger] r@[i] as int) < popularity(self@, #[trigger] r@[j] as int)
                        || (popularity(self@, r@[i] as int) == popularity(self@, r@[j] as int) && r@[i] < r@[j]),
                    r@.len() > start.len() ==> exists|q2: int| 0 <= q2 < q && vs@[q2] == r@[r@.len() - 1],
                decreases vs@.len() - q,
            {
                if pops[q] == c {
                    let ghost before = r@;
                    r.push(vs[q]);
                    proof {
                        assert(forall|i: int| 0 <= i < before.len() ==> r@[i] == #[trigger] before[i]);
                        assert forall|i: int, j: int| 0 <= i < j < r@.len() implies popularity(self@, #[trigger] r@[i] as int) < popularity(self@, #[trigger] r@[j] as int)
                            || (popularity(self@, r@[i] as int) == popularity(self@, r@[j] as int) && r@[i] < r@[j]) by {
                            if j == r@.len() - 1 && i >= start.len() {
                                let q2 = choose|q2: int| 0 <= q2 < q && vs@[q2] == r@[i];
                            }
                        }
                        assert forall|q2: int| 0 <= q2 < vs@.len() && pops@[q2] < c implies #[trigger] r@.contains(vs@[q2]) by {
                            assert(before.contains(vs@[q2]));
                            let i = choose|i: int| 0 <= i < before.len() && before[i] == vs@[q2];
                            assert(r@[i] == before[i]);
                        }
                        assert forall|q2: int| 0 <= q2 < q + 1 && pops@[q2] == c implies #[trigger] r@.contains(vs@[q2]) by {
                            if q2 == q {
                                assert(r@[r@.len() - 1] == vs@[q2]);
                            } else {
                                assert(before.contains(vs@[q2]));
                                let i = choose|i: int| 0 <= i < before.len() && before[i] == vs@[q2];
                                assert(r@[i] == before[i]);
                            }
                        }
                        assert forall|i: int| start.len() <= i < r@.len() implies popularity(self@, #[trigger] r@[i] as int) == c
                            && exists|q2: int| 0 <= q2 < q + 1 && vs@[q2] == r@[i] by {
                            if i < before.len() {
                                assert(r@[i] == before[i]);
                            }
                        }
                    }
                }
                q = q + 1;
            }
            proof {
                assert forall|i: int| 0 <= i < r@.len() implies cand(self@, square as int, #[trigger] r@[i] as int) && popularity(self@, r@[i] as int) < c + 1 by {}
            }
            c = c + 1;
        }
        proof {
            assert forall|d: int| #[trigger] cand(self@, square as int, d) implies exists|i: int| 0 <= i < r@.len() && r@[i] == d by {
                let q = choose|q: int| 0 <= q < vs@.len() && vs@[q] == d;
                assert(pops@[q] < c);
                assert(r@.contains(vs@[q]));
            }
        }
        r
    }

    /// Depth-first search from a grid at a fixed point of propagation: on
    /// the unsolved cell with the fewest candidates, tries each candidate,
    /// least popular first, on a copy of the grid, and keeps the first copy
    /// that solves. Fails, leaving the grid as it was, when none does.
    fn search(&mut self) -> (r: bool)
        requires
            old(self).wf(),
            consistent(old(self)@),
        ensures
            final(self).wf(),
            final(self).config == old(self).config,
            r ==> solved(final(self)@) && consistent(final(self)@) && within(final(self)@, old(self)@),
            !r ==> final(self)@ == old(self)@,
            (exists|sol: Seq<int>| is_solution(sol) && admits(old(self)@, sol)) ==> r,
        decreases total(old(self)@), 1int,
    {
        if self.is_solved() {
            return true;
        }
        let square = self.fewest();
        let values = self.sort_values(square);
        let mut i: usize = 0;
        while i < values.len()
            invariant
                self.wf(),
                self@ == old(self)@,
                self.config == old(self).config,
                consistent(self@),
                square < 81,
                cand_count(self@, square as int) > 1,
                forall|q: int| 0 <= q < values@.len() ==> cand(self@, square as int, #[trigger] values@[q] as int),
                forall|d: int| #[trigger] cand(self@, square as int, d) ==> exists|q: int| 0 <= q < values@.len() && values@[q] == d,
                i <= values@.len(),
                forall|sol: Seq<int>, q: int| #[trigger] is_solution(sol) && admits(self@, sol) && 0 <= q < i ==> #[trigger] values@[q] != sol[square as int],
            decreases values@.len() - i,
        {
            let d: u32 = values[i];
            let mut child = self.duplicate();
            if child.internal_solve(square, d) {
                self.values = child.values;
                return true;
            }
            i = i + 1;
        }
        proof {
            if exists|sol: Seq<int>| is_solution(sol) && admits(self@, sol) {
                let sol = choose|sol: Seq<int>| is_solution(sol) && admits(self@, sol);
                assert(cand(self@, square as int, sol[square as int]));
                let q = choose|q: int| 0 <= q < values@.len() && values@[q] == sol[square as int];
                assert(values@[q] != sol[square as int]);
            }
        }
        false
    }

    /// Assigns `value` to `square`, then searches on.
    fn internal_solve(&mut self, square: usize, value: u32) -> (r: bool)
        requires
            old(self).wf(),
            consistent(old(self)@),
            square < 81,
            cand_count(old(self)@, square as int) > 1,
        ensures
            final(self).wf(),
            final(self).config == old(self).config,
            r ==> solved(final(self)@) && consistent(final(self)@) && within(final(self)@, old(self)@),
            r ==> single(final(self)@, square as int, value as int),
            (exists|sol: Seq<int>| is_solution(sol) && admits(old(self)@, sol) && sol[square as int] == value) ==> r,
        decreases total(old(self)@), 0int,
    {
        let ghost s0 = self@;
        if !self.assign(square, value) {
            return false;
        }
        proof {
            lemma_propagated_consistent(s0, self@);
            lemma_digits_upto(s0, square as int, 9);
            let d = choose|d: int| 1 <= d <= 9 && #[trigger] cand(s0, square as int, d);
            assert(!single(s0, square as int, value as int));
            let e: int = if d != value {
                d
            } else {
                choose|e: int| #[trigger] cand(s0, square as int, e) && e != value
            };
            assert(cand(s0, square as int, e) && e != value);
            assert(!cand(self@, square as int, e));
            assert(s0[slot(square as int, e)] && !self@[slot(square as int, e)]);
            lemma_total_within(self@, s0);
        }
        let ghost mid = self@;
        proof {
            assert(settled(s0, square as int));
        }
        let ok = self.search();
        proof {
            if ok {
                lemma_within_trans(self@, mid, s0);
                assert(settled(self@, square as int));
                lemma_single_kept(mid, self@, square as int, value as int);
            }
        }
        ok
    }

    /// Assigns every non-zero clue in turn; fails at the first contradiction.
    fn apply_start_state(&mut self, state: StartState) -> (r: bool)
        requires
            old(self).wf(),
            consistent(old(self)@),
            names_cells(state@),
        ensures
            final(self).wf(),
            final(self).config == old(self).config,
            within(final(self)@, old(self)@),
            r ==> consistent(final(self)@) && shows(final(self)@, state@),
            forall|sol: Seq<int>|
                #[trigger] is_solution(sol) && admits(old(self)@, sol) && fits(sol, state@) ==> r && admits(final(self)@, sol),
    {
        let ghost s0 = self@;
        let mut i: usize = 0;
        while i < state.len()
            invariant
                self.wf(),
                self.config == old(self).config,
                s0 == old(self)@,
                names_cells(state@),
                within(self@, s0),
                consistent(self@),
                i <= state@.len(),
                forall|q: int| 0 <= q < i && #[trigger] state@[q].1 != 0 ==> single(self@, cell_of(state@[q].0), state@[q].1 as int),
                forall|sol: Seq<int>| #[trigger] is_solution(sol) && admits(s0, sol) && fits(sol, state@) ==> admits(self@, sol),
            decreases state@.len() - i,
        {
            let (id, v) = state[i];
            let found = self.config.index_of(id);
            match found {
                Some(s) => {
                    proof {
                        crate::topology::lemma_square_id_injective(s as int, cell_of(id));
                    }
                    if v != 0 {
                        let ghost cur = self@;
                        let ok = self.assign(s, v);
                        proof {
                            lemma_within_trans(self@, cur, s0);
                        }
                        if !ok {
                            assert forall|sol: Seq<int>| #[trigger] is_solution(sol) && admits(s0, sol) && fits(sol, state@) implies false by {
                                assert(state@[i as int].1 != 0);
                                assert(admits(cur, sol) && sol[s as int] == v);
                            }
                            return false;
                        }
                        proof {
                            lemma_propagated_consistent(cur, self@);
                            assert(nonempty(cur, s as int)) by {
                                assert(settled(cur, s as int));
                            }
                            assert forall|q: int| 0 <= q < i + 1 && #[trigger] state@[q].1 != 0 implies single(self@, cell_of(state@[q].0), state@[q].1 as int) by {
                                if q < i {
                                    crate::topology::lemma_square_id_injective(cell_of(state@[q].0), cell_of(state@[q].0));
                                    assert(settled(self@, cell_of(state@[q].0)));
                                    lemma_single_kept(cur, self@, cell_of(state@[q].0), state@[q].1 as int);
                                }
                            }
                            assert forall|sol: Seq<int>| #[trigger] is_solution(sol) && admits(s0, sol) && fits(sol, state@) implies admits(self@, sol) by {
                                assert(state@[i as int].1 != 0);
                                assert(admits(cur, sol) && sol[s as int] == v);
                            }
                        }
                    }
                },
                None => {
                    return false;
                },
            }
            i = i + 1;
        }
        true
    }

    /// Applies the clues, then searches. Succeeds exactly when some valid
    /// grid fits the clues and is admitted by this grid; the grid is then
    /// solved, and shows the clues.
    pub fn solve(&mut self, state: StartState) -> (r: bool)
        requires
            old(self).wf(),
            consistent(old(self)@),
            names_cells(state@),
        ensures
            final(self).wf(),
            final(self).topology() == old(self).topology(),
            r == exists|sol: Seq<int>| is_solution(sol) && admits(old(self)@, sol) && fits(sol, state@),
            r ==> solved(final(self)@) && consistent(final(self)@) && within(final(self)@, old(self)@),
            r ==> is_solution(grid_of(final(self)@)) && fits(grid_of(final(self)@), state@),
    {
        let ghost s0 = self@;
        let ghost clues = state@;
        if !self.apply_start_state(state) {
            return false;
        }
        let ghost mid = self@;
        let ok = self.search();
        proof {
            if ok {
                lemma_within_trans(self@, mid, s0);
                lemma_solved_grid(self@);
                let sol = grid_of(self@);
                assert(admits(s0, sol)) by {
                    assert forall|s: int| is_cell(s) implies #[trigger] cand(s0, s, sol[s]) by {
                        assert(cand(self@, s, sol[s]));
                    }
                }
                assert(fits(sol, clues)) by {
                    assert forall|i: int| 0 <= i < clues.len() && #[trigger] clues[i].1 != 0 implies sol[cell_of(clues[i].0)] == clues[i].1 as int by {
                        let c = cell_of(clues[i].0);
                        crate::topology::lemma_square_id_injective(c, c);
                        assert(settled(self@, c));
                        lemma_single_kept(mid, self@, c, clues[i].1 as int);
                        assert(determined(self@, c));
                    }
                }
            } else {
                if exists|sol: Seq<int>| is_solution(sol) && admits(s0, sol) && fits(sol, clues) {
                    let sol = choose|sol: Seq<int>| is_solution(sol) && admits(s0, sol) && fits(sol, clues);
                    assert(admits(mid, sol));
                }
            }
        }
        ok
    }

    /// The cells that hold a single digit, as clues in row-major order.
    fn encode(&self) -> (r: StartState)
        requires
            self.wf(),
        ensures
            encodes(self@, r@),
    {
        let mut r: StartState = Vec::new();
        let mut s: usize = 0;
        while s < 81
            invariant
                self.wf(),
                s <= 81,
                forall|i: int| 0 <= i < r@.len() ==> is_square_id(#[trigger] r@[i].0)
                    && single(self@, cell_of(r@[i].0), r@[i].1 as int) && cell_of(r@[i].0) < s,
                forall|t: int| 0 <= t < s && #[trigger] determined(self@, t) ==> exists|i: int| 0 <= i < r@.len() && r@[i].0 == square_id(t),
                forall|i: int, j: int| 0 <= i < j < r@.len() ==> cell_of(#[trigger] r@[i].0) < cell_of(#[trigger] r@[j].0),
            decreases 81 - s,
        {
            let vs = self.candidates(s);
            if vs.len() == 1 {
                let id = self.config.squares[s];
                proof {
                    assert(is_square_id(id));
                    crate::topology::lemma_square_id_injective(s as int, cell_of(id));
                    assert(single(self@, s as int, vs@[0] as int));
                }
                let ghost before = r@;
                r.push((id, vs[0]));
                proof {
                    assert(forall|i: int| 0 <= i < before.len() ==> r@[i] == #[trigger] before[i]);
                    assert forall|t: int| 0 <= t < s + 1 && #[trigger] determined(self@, t) implies exists|i: int| 0 <= i < r@.len() && r@[i].0 == square_id(t) by {
                        if t < s {
                            let i = choose|i: int| 0 <= i < before.len() && before[i].0 == square_id(t);
                            assert(r@[i] == before[i]);
                        } else {
                            assert(r@[r@.len() - 1].0 == square_id(t));
                        }
                    }
                }
            } else {
                proof {
                    if determined(self@, s as int) {
                        let d = choose|d: int| #[trigger] single(self@, s as int, d);
                        let q = choose|q: int| 0 <= q < vs@.len() && vs@[q] == d;
                        if vs@.len() > 1 {
                            if q == 0 {
                                assert(cand(self@, s as int, vs@[1] as int));
                            } else {
                                assert(cand(self@, s as int, vs@[0] as int));
                            }
                        }
                    }
                }
            }
            s = s + 1;
        }
        r
    }

    /// Puts a drawn digit `value` in `square`, then checks whether the cells
    /// that hold a single digit make a puzzle: at least `n` of them, over at
    /// least 8 distinct digits. `Err` on a contradiction, `Ok(None)` when the
    /// thresholds are not met yet.
    pub fn place(&mut self, square: usize, value: u32, n: usize) -> (r: Result<Option<StartState>, ()>)
        requires
            old(self).wf(),
            consistent(old(self)@),
            square < 81,
        ensures
            final(self).wf(),
            final(self).topology() == old(self).topology(),
            within(final(self)@, old(self)@),
            r is Err ==> !exists|sol: Seq<int>| is_solution(sol) && admits(old(self)@, sol) && sol[square as int] == value,
            r is Ok ==> consistent(final(self)@) && single(final(self)@, square as int, value as int),
            r matches Ok(Some(c)) ==> encodes(final(self)@, c@) && c@.len() >= n && clue_digits(c@, 9) >= 8,
            r matches Ok(None) ==> exists|c: Seq<StartValue>| encodes(final(self)@, c) && (c.len() < n || clue_digits(c, 9) < 8),
    {
        let ghost s0 = self@;
        if !self.assign(square, value) {
            return Err(());
        }
        proof {
            lemma_propagated_consistent(s0, self@);
            assert(settled(s0, square as int));
        }
        let clues = self.encode();
        if clues.len() >= n && distinct_digits(&clues) >= 8 {
            return Ok(Some(clues));
        }
        Ok(None)
    }

    /// One attempt at a new puzzle: visits the cells in random order and
    /// puts in each a random candidate (see `place`), until the thresholds
    /// are met. Fails on a contradiction, or with `Exhausted` when every
    /// cell was visited first, which only happens when `n` exceeds 81.
    fn randomize(&mut self, n: usize, rng: &mut ThreadRng) -> (r: Result<StartState, GenerateError>)
        requires
            old(self).wf(),
            consistent(old(self)@),
        ensures
            final(self).wf(),
            final(self).config == old(self).config,
            within(final(self)@, old(self)@),
            r matches Ok(clues) ==> consistent(final(self)@) && encodes(final(self)@, clues@)
                && clues@.len() >= n && clue_digits(clues@, 9) >= 8,
            r == Err::<StartState, GenerateError>(GenerateError::Exhausted) ==> n > 81,
    {
        let ghost s0 = self@;
        let mut squares: Vec<usize> = Vec::new();
        let mut s: usize = 0;
        while s < 81
            invariant
                s <= 81,
                squares@.len() == s,
                forall|i: int| 0 <= i < s ==> #[trigger] squares@[i] == i as usize,
            decreases 81 - s,
        {
            squares.push(s);
            s = s + 1;
        }
        assert(squares@ =~= Seq::new(81, |i: int| i as usize));
        let ghost start = squares@;
        shuffle(&mut squares, rng);
        proof {
            start.to_multiset_ensures();
            squares@.to_multiset_ensures();
            assert forall|i: int| 0 <= i < squares@.len() implies #[trigger] squares@[i] < 81 by {
                let x = squares@[i];
                assert(squares@.contains(x));
                assert(squares@.to_multiset().count(x) > 0);
                assert(start.to_multiset().count(x) > 0);
                assert(start.contains(x));
                let j = choose|j: int| 0 <= j < start.len() && start[j] == x;
                assert(start[j] < 81);
            }
            assert forall|x: int| is_cell(x) implies #[trigger] squares@.contains(x as usize) by {
                assert(start[x] == x as usize);
                assert(start.contains(x as usize));
                assert(start.to_multiset().count(x as usize) > 0);
                assert(squares@.to_multiset().count(x as usize) > 0);
            }
        }
        let mut i: usize = 0;
        while i < squares.len()
            invariant
                self.wf(),
                self.config == old(self).config,
                s0 == old(self)@,
                within(self@, s0),
                consistent(self@),
                i <= squares@.len(),
                forall|q: int| 0 <= q < squares@.len() ==> #[trigger] squares@[q] < 81,
                forall|x: int| is_cell(x) ==> #[trigger] squares@.contains(x as usize),
                forall|q: int| 0 <= q < i ==> determined(self@, #[trigger] squares@[q] as int),
                i > 0 ==> exists|c: Seq<StartValue>| encodes(self@, c) && (c.len() < n || clue_digits(c, 9) < 8),
            decreases squares@.len() - i,
        {
            let s: usize = squares[i];
            let vals = self.candidates(s);
            let pick = pick_one(&vals, rng);
            let v: u32 = match pick {
                Some(v) => v,
                None => {
                    return Err(GenerateError::Contradiction);
                },
            };
            let ghost cur = self@;
            let step = self.place(s, v, n);
            proof {
                lemma_within_trans(self@, cur, s0);
            }
            match step {
                Err(_) => {
                    return Err(GenerateError::Contradiction);
                },
                Ok(Some(clues)) => {
                    return Ok(clues);
                },
                Ok(None) => {},
            }
            proof {
                assert forall|q: int| 0 <= q < i + 1 implies determined(self@, #[trigger] squares@[q] as int) by {
                    if q < i {
                        let x = squares@[q] as int;
                        assert(determined(cur, x));
                        let d = choose|d: int| #[trigger] single(cur, x, d);
                        assert(settled(self@, x));
                        lemma_single_kept(cur, self@, x, d);
                    } else {
                        assert(single(self@, s as int, v as int));
                    }
                }
            }
            i = i + 1;
        }
        proof {
            assert forall|x: int| is_cell(x) implies #[trigger] determined(self@, x) by {
                assert(squares@.contains(x as usize));
                let q = choose|q: int| 0 <= q < squares@.len() && squares@[q] == x as usize;
                assert(determined(self@, squares@[q] as int));
            }
            assert(solved(self@));
            let c = choose|c: Seq<StartValue>| encodes(self@, c) && (c.len() < n || clue_digits(c, 9) < 8);
            lemma_solved_clues(self@, c);
        }
        Err(GenerateError::Exhausted)
    }

    /// One attempt at a new puzzle from this grid (see `randomize`): on
    /// success, the clues are the cells left holding a single digit.
    pub fn generate(&mut self, n: usize) -> (r: Result<StartState, GenerateError>)
        requires
            old(self).wf(),
            consistent(old(self)@),
        ensures
            final(self).wf(),
            final(self).topology() == old(self).topology(),
            within(final(self)@, old(self)@),
            r matches Ok(clues) ==> consistent(final(self)@) && encodes(final(self)@, clues@)
                && clues@.len() >= n && clue_digits(clues@, 9) >= 8,
            r == Err::<StartState, GenerateError>(GenerateError::Exhausted) ==> n > 81,
    {
        let mut rng = rand::thread_rng();
        self.randomize(n, &mut rng)
    }
}

/// Why an attempt at a new puzzle failed.
#[derive(Clone, Copy, Debug, PartialEq, Eq, Structural)]
pub enum GenerateError {
    /// A drawn digit led to a contradiction.
    Contradiction,
    /// Every cell was given a digit before the thresholds were met.
    Exhausted,
}

/// Clues that list the cells of a grid name cells in increasing order,
/// so there are at most 81 of them.
pub proof fn lemma_clues_at_most_81(g: Seq<bool>, c: Seq<StartValue>)
    requires
        encodes(g, c),
    ensures
        c.len() <= 81,
{
    if c.len() > 81 {
        lemma_clue_cell_at_least(g, c, 81);
        assert(is_square_id(c[81].0));
    }
}

proof fn lemma_clue_cell_at_least(g: Seq<bool>, c: Seq<StartValue>, i: int)
    requires
        encodes(g, c),
        0 <= i < c.len(),
    ensures
        cell_of(c[i].0) >= i,
    decreases i,
{
    assert(is_square_id(c[i].0));
    if i > 0 {
        lemma_clue_cell_at_least(g, c, i - 1);
        assert(is_square_id(c[i - 1].0));
    }
}

/// The clue of cell `s` stands at index `s` or later.
proof fn lemma_clue_index_at_least(g: Seq<bool>, c: Seq<StartValue>, s: int) -> (i: int)
    requires
        encodes(g, c),
        solved(g),
        0 <= s < 81,
    ensures
        0 <= i < c.len(),
        cell_of(c[i].0) == s,
        i >= s,
    decreases s,
{
    assert(determined(g, s));
    let i = choose|i: int| 0 <= i < c.len() && c[i].0 == square_id(s);
    crate::topology::lemma_square_id_injective(s, cell_of(c[i].0));
    assert(is_square_id(c[i].0));
    if s > 0 {
        let j = lemma_clue_index_at_least(g, c, s - 1);
        if i <= j {
            if i < j {
                assert(cell_of(c[i].0) < cell_of(c[j].0));
            }
        }
    }
    i
}

/// The clues of a solved, consistent grid are 81 and use all nine digits.
pub proof fn lemma_solved_clues(g: Seq<bool>, c: Seq<StartValue>)
    requires
        solved(g),
        consistent(g),
        encodes(g, c),
    ensures
        c.len() >= 81,
        clue_digits(c, 9) == 9,
{
    let last = lemma_clue_index_at_least(g, c, 80);
    assert forall|d: int| 1 <= d <= 9 implies #[trigger] has_clue_digit(c, d) by {
        assert(placed(g, 0, d));
        let k = choose|k: int| 0 <= k < 9 && #[trigger] cand(g, unit_cell(0, k), d);
        let x = unit_cell(0, k);
        crate::topology::lemma_unit_cells(0, k, k);
        assert(determined(g, x));
        let i = choose|i: int| 0 <= i < c.len() && c[i].0 == square_id(x);
        crate::topology::lemma_square_id_injective(x, cell_of(c[i].0));
        assert(is_square_id(c[i].0));
        assert(single(g, x, c[i].1 as int));
        assert(c[i].1 as int == d);
    }
    assert(clue_digits(c, 9) == 9) by {
        reveal_with_fuel(clue_digits, 10);
        assert(has_clue_digit(c, 1) && has_clue_digit(c, 2) && has_clue_digit(c, 3));
        assert(has_clue_digit(c, 4) && has_clue_digit(c, 5) && has_clue_digit(c, 6));
        assert(has_clue_digit(c, 7) && has_clue_digit(c, 8) && has_clue_digit(c, 9));
    }
}

} // verus!
