use sudoku::{cross, legos};

#[test]
fn cross_combines_in_row_major_order() {
    let v = cross(&['A', 'B'], &['1', '2']);
    assert_eq!(v, vec!["A1", "A2", "B1", "B2"]);
}

#[test]
fn legos_builds_the_classical_topology() {
    let (cols, rows, squares, unitlist) = legos();
    assert_eq!(cols, "123456789".chars().collect::<Vec<char>>());
    assert_eq!(rows, "ABCDEFGHI".chars().collect::<Vec<char>>());

    assert_eq!(squares.len(), 81);
    assert_eq!(squares[0], "A1");
    assert_eq!(squares[8], "A9");
    assert_eq!(squares[9], "B1");
    assert_eq!(squares[80], "I9");

    assert_eq!(unitlist.len(), 27);
    for unit in &unitlist {
        assert_eq!(unit.len(), 9);
    }
    // columns first
    assert_eq!(
        unitlist[0],
        vec!["A1", "B1", "C1", "D1", "E1", "F1", "G1", "H1", "I1"]
    );
    // then rows
    assert_eq!(
        unitlist[9],
        vec!["A1", "A2", "A3", "A4", "A5", "A6", "A7", "A8", "A9"]
    );
    // then boxes
    assert_eq!(
        unitlist[18],
        vec!["A1", "A2", "A3", "B1", "B2", "B3", "C1", "C2", "C3"]
    );
    assert_eq!(
        unitlist[26],
        vec!["G7", "G8", "G9", "H7", "H8", "H9", "I7", "I8", "I9"]
    );

    // every square appears in exactly three units
    for s in &squares {
        let n = unitlist.iter().filter(|u| u.contains(s)).count();
        assert_eq!(n, 3);
    }
}
