use sudoku::{PuzzleError, Sudoku};

#[test]
fn display_ok() {
    let grid = "309800000000500000250009600480000097700000005930000061008300056000006000000007403";
    let lines = Sudoku::display(grid).unwrap();
    let expected = vec![
        "3 0 9 |8 0 0 |0 0 0 ",
        "0 0 0 |5 0 0 |0 0 0 ",
        "2 5 0 |0 0 9 |6 0 0 ",
        "------+------+------",
        "4 8 0 |0 0 0 |0 9 7 ",
        "7 0 0 |0 0 0 |0 0 5 ",
        "9 3 0 |0 0 0 |0 6 1 ",
        "------+------+------",
        "0 0 8 |3 0 0 |0 5 6 ",
        "0 0 0 |0 0 6 |0 0 0 ",
        "0 0 0 |0 0 7 |4 0 3 ",
    ];
    assert_eq!(lines, expected);
}

#[test]
fn display_line_count_and_shape() {
    let grid = "0".repeat(81);
    let lines = Sudoku::display(&grid).unwrap();
    assert_eq!(lines.len(), 11);
    for (i, line) in lines.iter().enumerate() {
        assert_eq!(line.len(), 20);
        if i == 3 || i == 7 {
            assert_eq!(line, "------+------+------");
        } else {
            assert_eq!(&line[6..7], "|");
            assert_eq!(&line[13..14], "|");
        }
    }
}

#[test]
fn display_does_not_solve() {
    // a directly conflicting grid still displays fine
    let mut conflict = String::from("11");
    conflict.push_str(&"0".repeat(79));
    let lines = Sudoku::display(&conflict).unwrap();
    assert_eq!(lines[0], "1 1 0 |0 0 0 |0 0 0 ");
}

#[test]
fn display_ignores_other_characters() {
    let grid = "0".repeat(81);
    let mut noisy = String::new();
    for (i, ch) in grid.chars().enumerate() {
        noisy.push(ch);
        if i % 9 == 8 {
            noisy.push('\n');
        }
    }
    assert_eq!(Sudoku::display(&grid).unwrap(), Sudoku::display(&noisy).unwrap());
}

#[test]
fn display_boundary_lengths() {
    assert!(matches!(
        Sudoku::display(&"0".repeat(80)),
        Err(PuzzleError::InvalidGrid)
    ));
    assert!(matches!(
        Sudoku::display(&"0".repeat(82)),
        Err(PuzzleError::InvalidGrid)
    ));
}
