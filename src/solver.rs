//! Puzzles in and out: the text form of a grid, the solver and the
//! generator.
use vstd::prelude::*;
use vstd::string::StringSliceAdditionalSpecFns;
use vstd::utf8::encode_utf8;
use crate::topology::{Config, is_cell, square_id, is_square_id, lemma_square_id_injective};
use crate::model::{is_solution, admits, solved, consistent, grid_of, full, cand, is_digit};
use crate::state::{State, StartState, StartValue, GenerateError, cell_of, names_cells, fits, encodes, clue_digits, lemma_clues_at_most_81};

verus! {

broadcast use vstd::string::to_string_from_display_ensures_for_str;

/// The clue digit that a byte of the text form stands for: `'1'..='9'` give
/// their digit, anything else gives 0, no clue.
pub open spec fn clue_digit(b: u8) -> u32 {
    if 49 <= b <= 57 {
        (b - 48) as u32
    } else {
        0
    }
}

/// The clues that an 81-byte text grid stands for, in row-major order.
pub open spec fn grid_clues(b: Seq<u8>) -> Seq<StartValue> {
    Seq::new(81, |i: int| (square_id(i), clue_digit(b[i])))
}

/// The character that shows digit `d` (0..=9).
pub open spec fn digit_char(d: u32) -> char {
    if d == 0 { '0' }
    else if d == 1 { '1' }
    else if d == 2 { '2' }
    else if d == 3 { '3' }
    else if d == 4 { '4' }
    else if d == 5 { '5' }
    else if d == 6 { '6' }
    else if d == 7 { '7' }
    else if d == 8 { '8' }
    else { '9' }
}

/// The text form of the first `k` clues: `.` in every cell, then each clue's
/// digit written over its cell, later clues over earlier ones.
pub open spec fn render(clues: Seq<StartValue>, k: int) -> Seq<char>
    decreases k,
{
    if k <= 0 {
        Seq::new(81, |i: int| '.')
    } else if is_square_id(clues[k - 1].0) {
        render(clues, k - 1).update(cell_of(clues[k - 1].0), digit_char(clues[k - 1].1))
    } else {
        render(clues, k - 1)
    }
}

/// Every clue digit can be written as one character.
pub open spec fn writable(clues: Seq<StartValue>) -> bool {
    forall|i: int| 0 <= i < clues.len() ==> #[trigger] clues[i].1 <= 9
}

/// Relies on std's `FromIterator<char>` for `String`: the string holds the
/// characters in order.
#[verifier::external_body]
fn collect_chars(chars: &Vec<char>) -> (r: String)
    ensures
        r@ == chars@,
{
    chars.iter().collect()
}

fn char_of_digit(d: u32) -> (c: char)
    requires
        d <= 9,
    ensures
        c == digit_char(d),
{
    if d == 0 { '0' }
    else if d == 1 { '1' }
    else if d == 2 { '2' }
    else if d == 3 { '3' }
    else if d == 4 { '4' }
    else if d == 5 { '5' }
    else if d == 6 { '6' }
    else if d == 7 { '7' }
    else if d == 8 { '8' }
    else { '9' }
}

/// Reads and writes puzzles of some outside form `T`.
pub trait StartStateHandler<T> {
    fn parse(&self, config: &Config, input: T) -> Result<StartState, String>
        requires
            config.wf(),
    ;

    fn generate(&self, config: &Config, state: StartState) -> T
        requires
            config.wf(),
            writable(state@),
    ;
}

/// Puzzles as 81-character strings, row by row: `1`..`9` for a clue, any
/// other character for a blank cell.
pub struct StringStartStateHandler;

impl StringStartStateHandler {
    pub fn new() -> (r: StringStartStateHandler) {
        StringStartStateHandler
    }

    /// The clues of a text grid; an error unless it is exactly 81 bytes long.
    pub fn parse_str(&self, config: &Config, grid: &str) -> (r: Result<StartState, String>)
        requires
            config.wf(),
        ensures
            r is Err <==> grid.spec_bytes().len() != 81,
            r matches Err(e) ==> e@ == "Incorrect length"@,
            r matches Ok(clues) ==> clues@ == grid_clues(grid.spec_bytes()),
            grid.spec_bytes() == encode_utf8(grid@),
    {
        let bytes = grid.as_bytes();
        if bytes.len() != 81 {
            return Err("Incorrect length".to_string());
        }
        let mut clues: StartState = Vec::new();
        let mut i: usize = 0;
        while i < 81
            invariant
                config.wf(),
                bytes@ == grid.spec_bytes(),
                bytes@.len() == 81,
                i <= 81,
                clues@.len() == i,
                forall|j: int| 0 <= j < i ==> #[trigger] clues@[j] == grid_clues(bytes@)[j],
            decreases 81 - i,
        {
            let b: u8 = bytes[i];
            let d: u32 = if 49 <= b && b <= 57 {
                (b - 48) as u32
            } else {
                0
            };
            clues.push((config.squares[i], d));
            i = i + 1;
        }
        assert(clues@ =~= grid_clues(bytes@));
        Ok(clues)
    }

    /// The text form of some clues; clues that name no cell are skipped.
    pub fn render_str(&self, config: &Config, state: StartState) -> (r: String)
        requires
            config.wf(),
            writable(state@),
        ensures
            r@ == render(state@, state@.len() as int),
    {
        let mut chars: Vec<char> = Vec::new();
        let mut i: usize = 0;
        while i < 81
            invariant
                i <= 81,
                chars@.len() == i,
                forall|j: int| 0 <= j < i ==> #[trigger] chars@[j] == '.',
            decreases 81 - i,
        {
            chars.push('.');
            i = i + 1;
        }
        assert(chars@ =~= render(state@, 0));
        let mut k: usize = 0;
        while k < state.len()
            invariant
                config.wf(),
                writable(state@),
                k <= state@.len(),
                chars@ == render(state@, k as int),
                chars@.len() == 81,
            decreases state@.len() - k,
        {
            let (id, v) = state[k];
            match config.index_of(id) {
                Some(s) => {
                    proof {
                        lemma_square_id_injective(s as int, cell_of(id));
                    }
                    chars.set(s, char_of_digit(v));
                },
                None => {},
            }
            k = k + 1;
        }
        collect_chars(&chars)
    }
}

impl StartStateHandler<String> for StringStartStateHandler {
    fn parse(&self, config: &Config, grid: String) -> (r: Result<StartState, String>)
        ensures
            r is Err <==> encode_utf8(grid@).len() != 81,
            r matches Err(e) ==> e@ == "Incorrect length"@,
            r matches Ok(clues) ==> clues@ == grid_clues(encode_utf8(grid@)),
    {
        self.parse_str(config, grid.as_str())
    }

    fn generate(&self, config: &Config, state: StartState) -> (r: String)
        ensures
            r@ == render(state@, state@.len() as int),
    {
        self.render_str(config, state)
    }
}

/// Every valid grid is admitted by the full grid.
proof fn lemma_full_admits(sol: Seq<int>)
    requires
        is_solution(sol),
    ensures
        admits(full(), sol),
{
    assert forall|s: int| is_cell(s) implies #[trigger] cand(full(), s, sol[s]) by {
        assert(is_digit(sol[s]));
    }
}

/// Solves puzzles given as clues or as text.
pub struct Solver {
    config: Config,
    string_handler: StringStartStateHandler,
}

impl Solver {
    pub closed spec fn wf(&self) -> bool {
        self.config.wf()
    }

    pub fn new() -> (r: Solver)
        ensures
            r.wf(),
    {
        Solver { config: Config::new(), string_handler: StringStartStateHandler::new() }
    }

    /// Solves from a fresh grid. Succeeds exactly when some valid grid fits
    /// the clues; the grid returned is then solved, valid, and fits them.
    pub fn solve(&self, start_state: StartState) -> (r: Result<State<'_>, String>)
        requires
            self.wf(),
            names_cells(start_state@),
        ensures
            r is Ok <==> exists|sol: Seq<int>| is_solution(sol) && fits(sol, start_state@),
            r matches Err(e) ==> e@ == "Failed solving puzzle"@,
            r matches Ok(st) ==> st.wf() && solved(st@) && consistent(st@) && is_solution(grid_of(st@))
                && fits(grid_of(st@), start_state@),
    {
        let ghost clues = start_state@;
        let mut state = State::new(&self.config);
        proof {
            assert forall|sol: Seq<int>| is_solution(sol) implies admits(full(), sol) by {
                lemma_full_admits(sol);
            }
        }
        if !state.solve(start_state) {
            return Err("Failed solving puzzle".to_string());
        }
        Ok(state)
    }

    /// Parses a text grid, then solves it. An error when the text is not
    /// 81 bytes long; otherwise as `solve` on the clues it stands for.
    pub fn solve_str(&self, grid: &str) -> (r: Result<State<'_>, String>)
        requires
            self.wf(),
        ensures
            grid.spec_bytes().len() != 81 ==> (r matches Err(e) && e@ == "Incorrect length"@),
            grid.spec_bytes().len() == 81 ==> (r matches Err(e) ==> e@ == "Failed solving puzzle"@),
            grid.spec_bytes().len() == 81 ==> (r is Ok <==> exists|sol: Seq<int>|
                is_solution(sol) && fits(sol, grid_clues(grid.spec_bytes()))),
            r matches Ok(st) ==> st.wf() && solved(st@) && is_solution(grid_of(st@))
                && fits(grid_of(st@), grid_clues(grid.spec_bytes())),
    {
        let grid = match self.string_handler.parse_str(&self.config, grid) {
            Ok(grid) => grid,
            Err(err) => return Err(err),
        };
        proof {
            assert forall|i: int| 0 <= i < grid@.len() implies is_square_id(#[trigger] grid@[i].0) by {
                assert(is_cell(i) && square_id(i) == grid@[i].0);
            }
        }
        self.solve(grid)
    }
}

/// The number of tries `Generator::generate` makes before it gives up.
pub const MAX_ATTEMPTS: u64 = 0xffff_ffff_ffff_ffff;

/// Makes new puzzles.
pub struct Generator {
    config: Config,
    string_handler: StringStartStateHandler,
}

impl Generator {
    pub closed spec fn wf(&self) -> bool {
        self.config.wf()
    }

    pub fn new() -> (r: Generator)
        ensures
            r.wf(),
    {
        Generator { config: Config::new(), string_handler: StringStartStateHandler::new() }
    }

    /// A new puzzle: at least `n` clues over at least 8 distinct digits,
    /// taken from a consistent grid. Tries again from an empty grid until
    /// an attempt succeeds, up to `MAX_ATTEMPTS` tries.
    pub fn generate(&self, n: usize) -> (r: Option<StartState>)
        requires
            self.wf(),
        ensures
            r matches Some(clues) ==> clues@.len() >= n && clue_digits(clues@, 9) >= 8
                && exists|g: Seq<bool>| consistent(g) && encodes(g, clues@),
            n > 81 ==> r is None,
    {
        let mut attempt: u64 = 0;
        while attempt < MAX_ATTEMPTS
            invariant
                self.wf(),
            decreases MAX_ATTEMPTS - attempt,
        {
            let mut state = State::new(&self.config);
            match state.generate(n) {
                Ok(clues) => {
                    proof {
                        lemma_clues_at_most_81(state@, clues@);
                    }
                    return Some(clues);
                },
                Err(GenerateError::Exhausted) => {
                    return None;
                },
                Err(GenerateError::Contradiction) => {},
            }
            attempt = attempt + 1;
        }
        None
    }

    /// A new puzzle (see `generate`) in text form.
    pub fn generate_str(&self, n: usize) -> (r: Option<String>)
        requires
            self.wf(),
        ensures
            n > 81 ==> r is None,
            r matches Some(text) ==> text@.len() == 81 && exists|clues: Seq<StartValue>| {
                &&& clues.len() >= n
                &&& clue_digits(clues, 9) >= 8
                &&& (exists|g: Seq<bool>| consistent(g) && encodes(g, clues))
                &&& text@ == render(clues, clues.len() as int)
            },
    {
        match self.generate(n) {
            Some(clues) => {
                proof {
                    let g = choose|g: Seq<bool>| consistent(g) && encodes(g, clues@);
                    assert forall|i: int| 0 <= i < clues@.len() implies #[trigger] clues@[i].1 <= 9 by {
                        assert(cand(g, cell_of(clues@[i].0), clues@[i].1 as int));
                    }
                    lemma_render_len(clues@, clues@.len() as int);
                }
                let ghost cs = clues@;
                let text = self.string_handler.render_str(&self.config, clues);
                assert(text@ == render(cs, cs.len() as int));
                Some(text)
            },
            None => None,
        }
    }
}

proof fn lemma_render_len(clues: Seq<StartValue>, k: int)
    requires
        k <= clues.len(),
        forall|i: int| 0 <= i < clues.len() && is_square_id(#[trigger] clues[i].0) ==> is_cell(cell_of(clues[i].0)),
    ensures
        render(clues, k).len() == 81,
    decreases k,
{
    if k > 0 {
        lemma_render_len(clues, k - 1);
    }
}

} // verus!
