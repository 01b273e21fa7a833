use sudoku::{PuzzleError, Sudoku};

const PUZZLE: &str =
    "700000600060001070804020005000470000089000340000039000600050709010300020003000004";
const SOLUTION: &str =
    "791543682562981473834726915356478291289615347147239568628154739415397826973862154";

fn assert_valid_solution(out: &str) {
    let digits: Vec<u32> = out.chars().map(|c| c.to_digit(10).unwrap()).collect();
    assert_eq!(digits.len(), 81);
    for d in &digits {
        assert!((1..=9).contains(d));
    }
    for r in 0..9 {
        let mut seen = [false; 10];
        for c in 0..9 {
            seen[digits[r * 9 + c] as usize] = true;
        }
        assert!(seen[1..].iter().all(|&b| b));
    }
    for c in 0..9 {
        let mut seen = [false; 10];
        for r in 0..9 {
            seen[digits[r * 9 + c] as usize] = true;
        }
        assert!(seen[1..].iter().all(|&b| b));
    }
    for b in 0..9 {
        let mut seen = [false; 10];
        for k in 0..9 {
            let r = (b / 3) * 3 + k / 3;
            let c = (b % 3) * 3 + k % 3;
            seen[digits[r * 9 + c] as usize] = true;
        }
        assert!(seen[1..].iter().all(|&b| b));
    }
}

#[test]
fn solve_ok() {
    let engine = Sudoku::new();
    let out = engine.solve(PUZZLE).unwrap();
    assert_eq!(out, SOLUTION);
    assert_valid_solution(&out);
}

#[test]
fn solve_err_puzzle() {
    let engine = Sudoku::new();
    let bad =
        "X00000600060001070804020005000470000089000340000039000600050709010300020003000004";
    let err = engine.solve(bad).unwrap_err();
    assert!(matches!(err, PuzzleError::InvalidGrid));
    assert_eq!(
        err.message(),
        "Invalid Grid.  Provide a string of 81 digits with 0 or . for empties."
    );
}

#[test]
fn solve_is_deterministic() {
    let engine = Sudoku::new();
    let first = engine.solve(PUZZLE).unwrap();
    let second = engine.solve(PUZZLE).unwrap();
    assert_eq!(first, second);
}

#[test]
fn solve_round_trip() {
    let engine = Sudoku::new();
    assert_eq!(engine.solve(SOLUTION).unwrap(), SOLUTION);
}

#[test]
fn solve_ignores_other_characters() {
    let engine = Sudoku::new();
    let mut noisy = String::new();
    for (i, ch) in PUZZLE.chars().enumerate() {
        noisy.push(ch);
        if i % 9 == 8 {
            noisy.push('\n');
        }
        if i % 27 == 26 {
            noisy.push_str(" | ");
        }
    }
    assert_eq!(engine.solve(&noisy).unwrap(), SOLUTION);
}

#[test]
fn solve_accepts_dots_for_blanks() {
    let engine = Sudoku::new();
    let dotted: String = PUZZLE
        .chars()
        .map(|c| if c == '0' { '.' } else { c })
        .collect();
    assert_eq!(engine.solve(&dotted).unwrap(), SOLUTION);
}

#[test]
fn solve_boundary_too_short() {
    let engine = Sudoku::new();
    let short = "0".repeat(80);
    assert!(matches!(engine.solve(&short), Err(PuzzleError::InvalidGrid)));
}

#[test]
fn solve_boundary_too_long() {
    let engine = Sudoku::new();
    let long = "0".repeat(82);
    assert!(matches!(engine.solve(&long), Err(PuzzleError::InvalidGrid)));
}

#[test]
fn solve_detects_direct_conflict() {
    let engine = Sudoku::new();
    let mut conflict = String::from("11");
    conflict.push_str(&"0".repeat(79));
    let err = engine.solve(&conflict).unwrap_err();
    assert!(matches!(err, PuzzleError::Contradiction));
    assert_eq!(err.message(), "A contradiction occured. The puzzle is unsolvable.");
}

#[test]
fn solve_empty_grid_finds_some_solution() {
    let engine = Sudoku::new();
    let blank = "0".repeat(81);
    let out = engine.solve(&blank).unwrap();
    assert_valid_solution(&out);
}

#[test]
fn error_messages() {
    assert_eq!(
        PuzzleError::InvalidGrid.message(),
        "Invalid Grid.  Provide a string of 81 digits with 0 or . for empties."
    );
    assert_eq!(
        PuzzleError::Contradiction.message(),
        "A contradiction occured. The puzzle is unsolvable."
    );
    assert_eq!(PuzzleError::Unsolved.message(), "The puzzle is unsolvable.");
}

#[test]
fn parse_grid_applies_givens_and_propagates() {
    let engine = Sudoku::new();
    let blank = "0".repeat(81);
    let state = engine.parse_grid(&blank).unwrap();
    assert_eq!(state.len(), 81);
    assert!(state.iter().all(|&m| m == 511));

    let mut one_given = String::from("5");
    one_given.push_str(&"0".repeat(80));
    let state = engine.parse_grid(&one_given).unwrap();
    assert_eq!(state[0], 1 << 4);
    // every peer of square 0 lost digit 5
    assert_eq!(state[1] & (1 << 4), 0);
    assert_eq!(state[9] & (1 << 4), 0);
    assert_eq!(state[10] & (1 << 4), 0);
    // a non-peer keeps all nine candidates
    assert_eq!(state[80], 511);
}

#[test]
fn eliminate_and_assign_narrow_candidates() {
    let engine = Sudoku::new();
    let mut state = vec![511u16; 81];
    assert!(engine.eliminate(&mut state, 0, 5));
    assert_eq!(state[0], 511 & !(1 << 4));

    let mut state = vec![511u16; 81];
    assert!(engine.assign(&mut state, 40, 7));
    assert_eq!(state[40], 1 << 6);
    // row, column and box peers of the centre square lost digit 7
    assert_eq!(state[39] & (1 << 6), 0);
    assert_eq!(state[4] & (1 << 6), 0);
    assert_eq!(state[30] & (1 << 6), 0);
}

#[test]
fn solved_validates_a_finished_state() {
    let engine = Sudoku::new();
    let state = engine.parse_grid(SOLUTION).unwrap();
    assert!(engine.solved(&state));
    let state = engine.parse_grid(PUZZLE).unwrap();
    let done = engine.search(state).unwrap();
    assert!(engine.solved(&done));
}
