use sudoku::{distinct_digits, Config, GenerateError, Generator, Solver, StartState, StartStateHandler, State, StringStartStateHandler};

const EASY: &str = "..3.2.6..9..3.5..1..18.64....81.29..7.......8..67.82....26.95..8..2.3..9..5.1.3..";
const HARD: &str = "4.....8.5.3..........7......2.....6.....8.4......1.......6.3.7.5..2.....1.4......";

fn digits_of(state: &State) -> Vec<u32> {
    let mut out = Vec::new();
    for s in 0..81 {
        let c = state.candidates(s);
        assert_eq!(c.len(), 1, "cell {} is not solved", s);
        out.push(c[0]);
    }
    out
}

fn assert_valid_grid(grid: &[u32]) {
    assert_eq!(grid.len(), 81);
    let mut units: Vec<Vec<usize>> = Vec::new();
    for r in 0..9 {
        units.push((0..9).map(|c| 9 * r + c).collect());
    }
    for c in 0..9 {
        units.push((0..9).map(|r| 9 * r + c).collect());
    }
    for b in 0..9 {
        let (br, bc) = (3 * (b / 3), 3 * (b % 3));
        units.push((0..9).map(|k| 9 * (br + k / 3) + bc + k % 3).collect());
    }
    assert_eq!(units.len(), 27);
    for u in &units {
        let mut seen = [false; 10];
        for &s in u {
            let d = grid[s] as usize;
            assert!((1..=9).contains(&d));
            assert!(!seen[d], "digit {} twice in a unit", d);
            seen[d] = true;
        }
    }
}

fn clues_of(grid: &str) -> StartState {
    let config = Config::new();
    StringStartStateHandler::new().parse_str(&config, grid).unwrap()
}

#[test]
fn solves_the_easy_puzzle() {
    let solver = Solver::new();
    let state = solver.solve_str(EASY).unwrap();
    assert!(state.is_solved());
    let grid = digits_of(&state);
    assert_valid_grid(&grid);
    for (i, b) in EASY.bytes().enumerate() {
        if b != b'.' {
            assert_eq!(grid[i], (b - b'0') as u32);
        }
    }
}

#[test]
fn solves_a_hard_puzzle() {
    let solver = Solver::new();
    let state = solver.solve_str(HARD).unwrap();
    let grid = digits_of(&state);
    assert_valid_grid(&grid);
    assert_eq!(grid[0], 4);
}

#[test]
fn rejects_a_short_grid() {
    let solver = Solver::new();
    let short = &EASY[..80];
    assert_eq!(short.len(), 80);
    let r = solver.solve_str(short);
    assert_eq!(r.err(), Some("Incorrect length".to_string()));
}

#[test]
fn rejects_a_long_grid() {
    let solver = Solver::new();
    let long = format!("{}.", EASY);
    assert!(solver.solve_str(&long).is_err());
}

#[test]
fn identical_digits_cannot_be_solved() {
    let solver = Solver::new();
    let fives = "5".repeat(81);
    let r = solver.solve_str(&fives);
    assert_eq!(r.err(), Some("Failed solving puzzle".to_string()));
}

#[test]
fn blank_grid_is_solved() {
    let solver = Solver::new();
    let blank = ".".repeat(81);
    let state = solver.solve_str(&blank).unwrap();
    let grid = digits_of(&state);
    assert_valid_grid(&grid);
}

#[test]
fn generated_puzzle_meets_its_thresholds_and_solves() {
    let generator = Generator::new();
    let clues = generator.generate(17).unwrap();
    assert!(clues.len() >= 17);
    assert!(distinct_digits(&clues) >= 8);
    let mut digits: Vec<u32> = clues.iter().map(|c| c.1).collect();
    digits.sort();
    digits.dedup();
    assert!(digits.len() >= 8);
    let solver = Solver::new();
    let state = solver.solve(clues.clone()).unwrap();
    let grid = digits_of(&state);
    assert_valid_grid(&grid);
}

#[test]
fn generated_text_has_81_characters() {
    let generator = Generator::new();
    let text = generator.generate_str(17).unwrap();
    assert_eq!(text.chars().count(), 81);
    let clues = text.chars().filter(|c| c.is_ascii_digit()).count();
    assert!(clues >= 17);
}

#[test]
fn solved_grid_round_trips_through_text() {
    let solver = Solver::new();
    let first = digits_of(&solver.solve_str(EASY).unwrap());
    let text: String = first.iter().map(|d| char::from_digit(*d, 10).unwrap()).collect();
    assert_eq!(text.len(), 81);
    let second = digits_of(&solver.solve_str(&text).unwrap());
    assert_eq!(first, second);
}

#[test]
fn repeated_clue_changes_nothing() {
    let solver = Solver::new();
    let once = digits_of(&solver.solve(clues_of(EASY)).unwrap());
    let mut twice = clues_of(EASY);
    let extra: Vec<_> = twice.iter().filter(|c| c.1 != 0).cloned().collect();
    twice.extend(extra);
    let again = digits_of(&solver.solve(twice).unwrap());
    assert_eq!(once, again);
}

#[test]
fn conflicting_clues_fail() {
    let solver = Solver::new();
    let clues = vec![(('A', '1'), 5), (('A', '9'), 5)];
    assert!(solver.solve(clues).is_err());
}

#[test]
fn clue_beyond_nine_fails_and_zero_is_blank() {
    let solver = Solver::new();
    assert!(solver.solve(vec![(('E', '5'), 10)]).is_err());
    let state = solver.solve(vec![(('E', '5'), 0), (('A', '1'), 7)]).unwrap();
    assert_eq!(state.candidates(0), vec![7]);
}

#[test]
fn fresh_state_has_all_candidates() {
    let config = Config::new();
    let state = State::new(&config);
    for s in 0..81 {
        assert_eq!(state.candidates(s), vec![1, 2, 3, 4, 5, 6, 7, 8, 9]);
    }
    assert!(!state.is_solved());
}

#[test]
fn state_solve_keeps_candidates_in_range() {
    let config = Config::new();
    let mut state = State::new(&config);
    assert!(state.solve(clues_of(EASY)));
    for s in 0..81 {
        let n = state.candidates(s).len();
        assert!((1..=9).contains(&n));
    }
    assert!(state.is_solved());
}

#[test]
fn state_generate_gives_singleton_clues() {
    let config = Config::new();
    let clues = loop {
        let mut state = State::new(&config);
        if let Ok(clues) = state.generate(20) {
            for (id, v) in &clues {
                let s = config.index_of(*id).unwrap();
                assert_eq!(state.candidates(s), vec![*v]);
            }
            break clues;
        }
    };
    assert!(clues.len() >= 20);
    for w in clues.windows(2) {
        let a = config.index_of(w[0].0).unwrap();
        let b = config.index_of(w[1].0).unwrap();
        assert!(a < b);
    }
}

#[test]
fn parse_reads_digits_and_blanks() {
    let config = Config::new();
    let handler = StringStartStateHandler::new();
    let text = format!("1.0x9{}", ".".repeat(76));
    let clues = handler.parse(&config, text).unwrap();
    assert_eq!(clues.len(), 81);
    assert_eq!(clues[0], (('A', '1'), 1));
    assert_eq!(clues[1], (('A', '2'), 0));
    assert_eq!(clues[2], (('A', '3'), 0));
    assert_eq!(clues[3], (('A', '4'), 0));
    assert_eq!(clues[4], (('A', '5'), 9));
    assert_eq!(clues[80], (('I', '9'), 0));
    assert!(handler.parse(&config, "123".to_string()).is_err());
}

#[test]
fn render_writes_clues_in_place() {
    let config = Config::new();
    let handler = StringStartStateHandler::new();
    let text = handler.generate(&config, vec![(('A', '1'), 3), (('I', '9'), 7), (('B', '2'), 0)]);
    let mut expected = vec!['.'; 81];
    expected[0] = '3';
    expected[80] = '7';
    expected[10] = '0';
    assert_eq!(text, expected.into_iter().collect::<String>());
    let back = handler.parse(&config, handler.generate(&config, clues_of(EASY))).unwrap();
    assert_eq!(back, clues_of(EASY));
}

#[test]
fn topology_tables() {
    let config = Config::new();
    assert_eq!(config.squares.len(), 81);
    assert_eq!(config.squares[0], ('A', '1'));
    assert_eq!(config.squares[80], ('I', '9'));
    assert_eq!(config.unitlist.len(), 27);
    for s in 0..81 {
        assert_eq!(config.units[s].len(), 3);
        assert_eq!(config.peers[s].len(), 20);
    }
    assert_eq!(config.unitlist[18], vec![0, 1, 2, 9, 10, 11, 18, 19, 20]);
    assert_eq!(config.index_of(('C', '2')), Some(19));
    assert_eq!(config.index_of(('Z', '2')), None);
}

#[test]
fn distinct_digits_counts_each_digit_once() {
    let clues = vec![(('A', '1'), 3), (('A', '2'), 3), (('A', '3'), 9), (('A', '4'), 0)];
    assert_eq!(distinct_digits(&clues), 2);
    assert_eq!(distinct_digits(&Vec::new()), 0);
}

#[test]
fn generate_gives_up_when_more_clues_than_cells_are_asked() {
    let generator = Generator::new();
    assert!(generator.generate(82).is_none());
    assert!(generator.generate_str(100).is_none());
    let config = Config::new();
    let outcome = loop {
        let mut state = State::new(&config);
        let r = state.generate(82);
        if r != Err(GenerateError::Contradiction) {
            break r;
        }
    };
    assert_eq!(outcome, Err(GenerateError::Exhausted));
}

#[test]
fn place_reports_thresholds_and_contradictions() {
    let config = Config::new();
    let mut state = State::new(&config);
    assert_eq!(state.place(0, 5, 2), Ok(None));
    assert_eq!(state.candidates(0), vec![5]);
    assert_eq!(state.candidates(1).contains(&5), false);
    let clues = state.place(1, 6, 2).unwrap().map(|c| c.len());
    assert_eq!(clues, None);
    let found = state.place(2, 7, 0).unwrap().unwrap_or_default();
    assert!(found.is_empty() || found.len() >= 3);
    let mut other = State::new(&config);
    assert_eq!(other.place(0, 5, 81), Ok(None));
    assert_eq!(other.place(1, 5, 81), Err(()));
}

#[test]
fn place_meets_a_low_threshold_only_with_eight_digits() {
    let config = Config::new();
    let mut state = State::new(&config);
    let mut result = Ok(None);
    for (i, d) in (1..=8u32).enumerate() {
        result = state.place(i, d, 1);
        if i < 7 {
            assert_eq!(result, Ok(None));
        }
    }
    let clues = result.unwrap().unwrap();
    assert!(clues.len() >= 9);
    assert_eq!(distinct_digits(&clues), 9);
}

#[test]
fn render_skips_unknown_cells() {
    let config = Config::new();
    let handler = StringStartStateHandler::new();
    let text = handler.render_str(&config, vec![(('Z', '1'), 4), (('A', '2'), 8)]);
    let mut expected = vec!['.'; 81];
    expected[1] = '8';
    assert_eq!(text, expected.into_iter().collect::<String>());
}

#[test]
fn assign_twice_is_a_no_op() {
    let config = Config::new();
    let mut state = State::new(&config);
    assert!(state.assign(40, 3));
    let after_first: Vec<Vec<u32>> = (0..81).map(|s| state.candidates(s)).collect();
    assert_eq!(after_first[40], vec![3]);
    assert!(state.assign(40, 3));
    let after_second: Vec<Vec<u32>> = (0..81).map(|s| state.candidates(s)).collect();
    assert_eq!(after_first, after_second);
}

#[test]
fn eliminate_propagates_and_never_grows() {
    let config = Config::new();
    let mut state = State::new(&config);
    for d in 1..=8u32 {
        assert!(state.eliminate(0, d));
    }
    assert_eq!(state.candidates(0), vec![9]);
    assert!(!state.candidates(1).contains(&9));
    assert!(!state.candidates(9).contains(&9));
    assert!(!state.candidates(10).contains(&9));
    assert!(state.eliminate(0, 1));
    assert!(!state.eliminate(0, 9));
    for s in 0..81 {
        assert!(state.candidates(s).len() <= 9);
    }
}

#[test]
fn eliminate_places_a_hidden_single() {
    let config = Config::new();
    let mut state = State::new(&config);
    for s in 1..9 {
        assert!(state.eliminate(s, 4));
    }
    assert_eq!(state.candidates(0), vec![4]);
}
