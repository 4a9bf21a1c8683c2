//! The fixed shape of the board: the 81 cells, the 27 units and each
//! cell's peers. Cells are numbered 0..81 in row-major order.
use vstd::prelude::*;

verus! {

/// A cell as the outside world names it: a row label `'A'..='I'` and a
/// column label `'1'..='9'`.
pub type SquareId = (char, char);

pub open spec fn row_of(s: int) -> int {
    s / 9
}

pub open spec fn col_of(s: int) -> int {
    s % 9
}

pub open spec fn is_cell(s: int) -> bool {
    0 <= s < 81
}

pub open spec fn same_box(s: int, t: int) -> bool {
    row_of(s) / 3 == row_of(t) / 3 && col_of(s) / 3 == col_of(t) / 3
}

/// Two distinct cells that share a row, a column or a box.
pub open spec fn is_peer(s: int, t: int) -> bool {
    &&& is_cell(s)
    &&& is_cell(t)
    &&& s != t
    &&& (row_of(s) == row_of(t) || col_of(s) == col_of(t) || same_box(s, t))
}

/// The `k`-th cell of unit `u`: units 0..9 are the rows, 9..18 the columns
/// and 18..27 the boxes, each read in row-major order.
pub open spec fn unit_cell(u: int, k: int) -> int {
    if u < 9 {
        9 * u + k
    } else if u < 18 {
        9 * k + (u - 9)
    } else {
        9 * (((u - 18) / 3) * 3 + k / 3) + ((u - 18) % 3) * 3 + k % 3
    }
}

/// The `j`-th unit (row, column, box) that holds cell `s`.
pub open spec fn unit_of(s: int, j: int) -> int {
    if j == 0 {
        row_of(s)
    } else if j == 1 {
        9 + col_of(s)
    } else {
        18 + (row_of(s) / 3) * 3 + col_of(s) / 3
    }
}

pub open spec fn row_label(r: int) -> char {
    if r == 0 { 'A' }
    else if r == 1 { 'B' }
    else if r == 2 { 'C' }
    else if r == 3 { 'D' }
    else if r == 4 { 'E' }
    else if r == 5 { 'F' }
    else if r == 6 { 'G' }
    else if r == 7 { 'H' }
    else { 'I' }
}

pub open spec fn col_label(c: int) -> char {
    if c == 0 { '1' }
    else if c == 1 { '2' }
    else if c == 2 { '3' }
    else if c == 3 { '4' }
    else if c == 4 { '5' }
    else if c == 5 { '6' }
    else if c == 6 { '7' }
    else if c == 7 { '8' }
    else { '9' }
}

/// The external name of cell `s`.
pub open spec fn square_id(s: int) -> SquareId {
    (row_label(row_of(s)), col_label(col_of(s)))
}

pub open spec fn is_square_id(id: SquareId) -> bool {
    exists|s: int| is_cell(s) && #[trigger] square_id(s) == id
}

/// Cells of one unit all differ and are peers of one another.
pub proof fn lemma_unit_cells(u: int, k1: int, k2: int)
    requires
        0 <= u < 27,
        0 <= k1 < 9,
        0 <= k2 < 9,
    ensures
        is_cell(unit_cell(u, k1)),
        k1 != k2 ==> unit_cell(u, k1) != unit_cell(u, k2),
        k1 != k2 ==> is_peer(unit_cell(u, k1), unit_cell(u, k2)),
{
    assert(is_cell(unit_cell(u, k1)) && (k1 != k2 ==> unit_cell(u, k1) != unit_cell(u, k2) && is_peer(
        unit_cell(u, k1),
        unit_cell(u, k2),
    ))) by (nonlinear_arith)
        requires
            0 <= u < 27,
            0 <= k1 < 9,
            0 <= k2 < 9,
    ;
}

/// A unit that holds cell `s` is one of the three units of `s`.
pub proof fn lemma_units_of_cell(u: int, k: int)
    requires
        0 <= u < 27,
        0 <= k < 9,
    ensures
        u == unit_of(unit_cell(u, k), 0) || u == unit_of(unit_cell(u, k), 1) || u == unit_of(
            unit_cell(u, k),
            2,
        ),
{
    assert(u == unit_of(unit_cell(u, k), 0) || u == unit_of(unit_cell(u, k), 1) || u == unit_of(
        unit_cell(u, k),
        2,
    )) by (nonlinear_arith)
        requires
            0 <= u < 27,
            0 <= k < 9,
    ;
}

/// The three units of a cell, read as `unit_cell`, hold that cell.
pub proof fn lemma_cell_in_units(s: int, j: int)
    requires
        is_cell(s),
        0 <= j < 3,
    ensures
        0 <= unit_of(s, j) < 27,
        exists|k: int| 0 <= k < 9 && #[trigger] unit_cell(unit_of(s, j), k) == s,
{
    let k: int = if j == 0 {
        col_of(s)
    } else if j == 1 {
        row_of(s)
    } else {
        (row_of(s) % 3) * 3 + col_of(s) % 3
    };
    assert(0 <= unit_of(s, j) < 27 && 0 <= k < 9 && unit_cell(unit_of(s, j), k) == s)
        by (nonlinear_arith)
        requires
            0 <= s < 81,
            0 <= j < 3,
            k == (if j == 0 {
                s % 9
            } else if j == 1 {
                s / 9
            } else {
                ((s / 9) % 3) * 3 + (s % 9) % 3
            }),
    ;
}

/// Distinct cells have distinct names; a cell's name leads back to it.
pub proof fn lemma_square_id_injective(s: int, t: int)
    requires
        is_cell(s),
        is_square_id(square_id(t)) || is_cell(t),
    ensures
        is_cell(t) ==> (square_id(s) == square_id(t) <==> s == t),
{
    if is_cell(t) && square_id(s) == square_id(t) {
        assert(row_of(s) == row_of(t));
        assert(col_of(s) == col_of(t));
    }
}

/// The fixed topology of the board, computed once and shared by every grid.
#[derive(Debug)]
pub struct Config {
    pub squares: Vec<SquareId>,
    pub unitlist: Vec<Vec<usize>>,
    pub units: Vec<Vec<usize>>,
    pub peers: Vec<Vec<usize>>,
}

impl Config {
    /// The tables hold exactly the cells, units and peers described above.
    pub open spec fn wf(&self) -> bool {
        &&& self.squares@.len() == 81
        &&& forall|s: int| is_cell(s) ==> #[trigger] self.squares@[s] == square_id(s)
        &&& self.unitlist@.len() == 27
        &&& forall|u: int| 0 <= u < 27 ==> #[trigger] self.unitlist@[u]@.len() == 9
        &&& forall|u: int, k: int|
            0 <= u < 27 && 0 <= k < 9 ==> #[trigger] self.unitlist@[u]@[k] == unit_cell(u, k)
        &&& self.units@.len() == 81
        &&& forall|s: int| is_cell(s) ==> #[trigger] self.units@[s]@.len() == 3
        &&& forall|s: int, j: int|
            is_cell(s) && 0 <= j < 3 ==> #[trigger] self.units@[s]@[j] == unit_of(s, j)
        &&& self.peers@.len() == 81
        &&& forall|s: int, i: int|
            is_cell(s) && 0 <= i < self.peers@[s]@.len() ==> is_peer(
                s,
                #[trigger] self.peers@[s]@[i] as int,
            )
        &&& forall|s: int, t: int|
            #[trigger] is_peer(s, t) ==> self.peers@[s]@.contains(t as usize)
        &&& forall|s: int| is_cell(s) ==> (#[trigger] self.peers@[s]@).no_duplicates()
    }

    pub fn new() -> (r: Config)
        ensures
            r.wf(),
    {
        let mut squares: Vec<SquareId> = Vec::new();
        let mut s: usize = 0;
        while s < 81
            invariant
                s <= 81,
                squares@.len() == s,
                forall|i: int| 0 <= i < s ==> #[trigger] squares@[i] == square_id(i),
            decreases 81 - s,
        {
            squares.push((row_char(s / 9), col_char(s % 9)));
            s = s + 1;
        }
        let mut unitlist: Vec<Vec<usize>> = Vec::new();
        let mut u: usize = 0;
        while u < 27
            invariant
                u <= 27,
                unitlist@.len() == u,
                forall|i: int| 0 <= i < u ==> #[trigger] unitlist@[i]@.len() == 9,
                forall|i: int, k: int|
                    0 <= i < u && 0 <= k < 9 ==> #[trigger] unitlist@[i]@[k] == unit_cell(i, k),
            decreases 27 - u,
        {
            let mut unit: Vec<usize> = Vec::new();
            let mut k: usize = 0;
            while k < 9
                invariant
                    u < 27,
                    k <= 9,
                    unit@.len() == k,
                    forall|i: int| 0 <= i < k ==> #[trigger] unit@[i] == unit_cell(u as int, i),
                decreases 9 - k,
            {
                let c: usize = if u < 9 {
                    9 * u + k
                } else if u < 18 {
                    9 * k + (u - 9)
                } else {
                    9 * (((u - 18) / 3) * 3 + k / 3) + ((u - 18) % 3) * 3 + k % 3
                };
                unit.push(c);
                k = k + 1;
            }
            unitlist.push(unit);
            u = u + 1;
        }
        let mut units: Vec<Vec<usize>> = Vec::new();
        let mut peers: Vec<Vec<usize>> = Vec::new();
        let mut s: usize = 0;
        while s < 81
            invariant
                s <= 81,
                units@.len() == s,
                peers@.len() == s,
                forall|i: int| 0 <= i < s ==> #[trigger] units@[i]@.len() == 3,
                forall|i: int, j: int|
                    0 <= i < s && 0 <= j < 3 ==> #[trigger] units@[i]@[j] == unit_of(i, j),
                forall|i: int, p: int|
                    0 <= i < s && 0 <= p < peers@[i]@.len() ==> is_peer(
                        i,
                        #[trigger] peers@[i]@[p] as int,
                    ),
                forall|i: int, t: int|
                    0 <= i < s && #[trigger] is_peer(i, t) ==> peers@[i]@.contains(t as usize),
                forall|i: int| 0 <= i < s ==> (#[trigger] peers@[i]@).no_duplicates(),
            decreases 81 - s,
        {
            let r: usize = s / 9;
            let c: usize = s % 9;
            units.push(vec![r, 9 + c, 18 + (r / 3) * 3 + c / 3]);
            let mut ps: Vec<usize> = Vec::new();
            let mut t: usize = 0;
            while t < 81
                invariant
                    s < 81,
                    t <= 81,
                    r == s / 9,
                    c == s % 9,
                    forall|p: int| 0 <= p < ps@.len() ==> is_peer(s as int, #[trigger] ps@[p] as int),
                    forall|x: int| 0 <= x < t && #[trigger] is_peer(s as int, x) ==> ps@.contains(x as usize),
                    forall|p: int| 0 <= p < ps@.len() ==> #[trigger] ps@[p] < t,
                    forall|p: int, q: int| 0 <= p < q < ps@.len() ==> ps@[p] < ps@[q],
                decreases 81 - t,
            {
                let ghost before = ps@;
                if t != s && (t / 9 == r || t % 9 == c || (t / 27 == r / 3 && (t % 9) / 3 == c / 3)) {
                    assert(t / 27 == (t / 9) / 3);
                    ps.push(t);
                    assert(ps@[ps@.len() - 1] == t);
                    assert(forall|p: int| 0 <= p < before.len() ==> ps@[p] == #[trigger] before[p]);
                } else {
                    assert(t / 27 == (t / 9) / 3);
                }
                proof {
                    assert forall|x: int| 0 <= x < t + 1 && #[trigger] is_peer(s as int, x) implies ps@.contains(x as usize) by {
                        if x == t {
                            assert(ps@[ps@.len() - 1] == t);
                        } else {
                            let p = choose|p: int| 0 <= p < before.len() && before[p] == x as usize;
                            assert(ps@[p] == before[p]);
                        }
                    }
                }
                t = t + 1;
            }
            let ghost old_peers = peers@;
            peers.push(ps);
            proof {
                assert(forall|i: int| 0 <= i < s ==> peers@[i] == #[trigger] old_peers[i]);
                assert forall|i: int| 0 <= i < s + 1 implies (#[trigger] peers@[i]@).no_duplicates() by {
                    if i < s {
                        assert(peers@[i] == old_peers[i]);
                    } else {
                        assert(forall|p: int, q: int| 0 <= p < q < ps@.len() ==> ps@[p] != ps@[q]);
                    }
                }
            }
            s = s + 1;
        }
        Config { squares, unitlist, units, peers }
    }

    /// The cell number of an external cell name, if it names a cell.
    pub fn index_of(&self, id: SquareId) -> (r: Option<usize>)
        requires
            self.wf(),
        ensures
            r matches Some(s) ==> is_cell(s as int) && square_id(s as int) == id,
            r is None ==> !is_square_id(id),
    {
        let mut s: usize = 0;
        while s < 81
            invariant
                self.wf(),
                s <= 81,
                forall|i: int| 0 <= i < s ==> square_id(i) != id,
            decreases 81 - s,
        {
            let (a, b) = self.squares[s];
            if a == id.0 && b == id.1 {
                return Some(s);
            }
            s = s + 1;
        }
        None
    }
}

fn row_char(r: usize) -> (c: char)
    requires
        r < 9,
    ensures
        c == row_label(r as int),
{
    if r == 0 { 'A' }
    else if r == 1 { 'B' }
    else if r == 2 { 'C' }
    else if r == 3 { 'D' }
    else if r == 4 { 'E' }
    else if r == 5 { 'F' }
    else if r == 6 { 'G' }
    else if r == 7 { 'H' }
    else { 'I' }
}

fn col_char(c: usize) -> (ch: char)
    requires
        c < 9,
    ensures
        ch == col_label(c as int),
{
    if c == 0 { '1' }
    else if c == 1 { '2' }
    else if c == 2 { '3' }
    else if c == 3 { '4' }
    else if c == 4 { '5' }
    else if c == 5 { '6' }
    else if c == 6 { '7' }
    else if c == 7 { '8' }
    else { '9' }
}

} // verus!
