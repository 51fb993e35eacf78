use nonogram::line::solve_line;
use nonogram::puzzle::check_clue;
use nonogram::{Axis, Cell, ClueFault, Contradiction, InvalidClue, Nonogram, SolveFailure, SolvedNonogram};

fn puzzle_15() -> Nonogram {
    Nonogram {
        cols: vec![
            vec![4, 7],
            vec![2, 2, 1, 1],
            vec![2, 3, 1, 1],
            vec![1, 1, 1, 2],
            vec![1, 1, 4],
            vec![2, 1, 4],
            vec![2, 4],
            vec![1, 1, 2],
            vec![2, 2],
            vec![2, 2],
            vec![1, 3],
            vec![2],
            vec![1],
            vec![1],
            vec![1],
        ],
        rows: vec![
            vec![2],
            vec![3],
            vec![1],
            vec![1],
            vec![1],
            vec![0],
            vec![3],
            vec![2, 5],
            vec![3, 3],
            vec![6],
            vec![1],
            vec![12],
            vec![1, 3, 7],
            vec![8, 1],
            vec![1, 5],
        ],
    }
}

#[test]
fn solves() {
    let puzzle = puzzle_15();

    let expected = SolvedNonogram::try_from(
        r#"
        0 1 1 0 0 0 0 0 0 0 0 0 0 0 0
        1 1 1 0 0 0 0 0 0 0 0 0 0 0 0
        1 0 0 0 0 0 0 0 0 0 0 0 0 0 0
        1 0 0 0 0 0 0 0 0 0 0 0 0 0 0
        1 0 0 0 0 0 0 0 0 0 0 0 0 0 0
        0 0 0 0 0 0 0 0 0 0 0 0 0 0 0
        0 0 0 0 1 1 1 0 0 0 0 0 0 0 0
        0 0 1 1 0 1 1 1 1 1 0 0 0 0 0
        1 1 1 0 0 0 0 0 1 1 1 0 0 0 0
        1 1 1 1 1 1 0 0 0 0 0 0 0 0 0
        1 0 0 0 0 0 0 0 0 0 0 0 0 0 0
        1 1 1 1 1 1 1 1 1 1 1 1 0 0 0
        1 0 0 0 1 1 1 0 1 1 1 1 1 1 1
        1 1 1 1 1 1 1 1 0 0 1 0 0 0 0
        1 0 0 1 1 1 1 1 0 0 0 0 0 0 0
    "#,
    )
    .unwrap();

    let solved = puzzle.clone().solve().unwrap();
    assert_eq!(solved.rows.len(), 15);
    for (index, row) in solved.rows.iter().enumerate() {
        assert_eq!(row.len(), 15);
        assert_eq!(*row, expected.rows[index]);
    }
    assert_eq!(solved, expected);
}

#[test]
fn solves_column_clues_of_full_runs() {
    let puzzle = Nonogram {
        cols: vec![vec![3], vec![0], vec![3]],
        rows: vec![vec![1, 1], vec![1, 1], vec![1, 1]],
    };
    let expected = SolvedNonogram::try_from("1 0 1\n1 0 1\n1 0 1").unwrap();
    assert_eq!(puzzle.solve().unwrap(), expected);
}

#[test]
fn solves_row_clues_of_full_runs() {
    let puzzle = Nonogram {
        cols: vec![vec![1, 1], vec![1, 1], vec![1, 1]],
        rows: vec![vec![3], vec![0], vec![3]],
    };
    let expected = SolvedNonogram::try_from("1 1 1\n0 0 0\n1 1 1").unwrap();
    assert_eq!(puzzle.solve().unwrap(), expected);
}

#[test]
fn line_with_known_empty_contradicts() {
    let known = vec![Cell::Empty, Cell::Unknown];
    assert_eq!(solve_line(&vec![2], &known), Err(Contradiction));
}

#[test]
fn single_run_on_wide_line_stays_unknown() {
    let known = vec![Cell::Unknown; 4];
    assert_eq!(solve_line(&vec![1], &known), Ok(vec![Cell::Unknown; 4]));
}

#[test]
fn underdetermined_puzzle_reports_partial_grid() {
    let puzzle = Nonogram {
        cols: vec![vec![1], vec![1]],
        rows: vec![vec![1], vec![1]],
    };
    let cells = vec![vec![Cell::Unknown; 2]; 2];
    assert_eq!(puzzle.solve(), Err(SolveFailure::Underdetermined { cells }));
}

#[test]
fn zero_clue_empties_line() {
    let known = vec![Cell::Unknown; 5];
    assert_eq!(solve_line(&vec![0], &known), Ok(vec![Cell::Empty; 5]));
    assert_eq!(solve_line(&vec![], &known), Ok(vec![Cell::Empty; 5]));
}

#[test]
fn full_length_clue_fills_line() {
    let known = vec![Cell::Unknown; 5];
    assert_eq!(solve_line(&vec![5], &known), Ok(vec![Cell::Filled; 5]));
    assert_eq!(solve_line(&vec![1], &vec![Cell::Unknown]), Ok(vec![Cell::Filled]));
}

#[test]
fn overlapping_placements_fix_middle() {
    let known = vec![Cell::Unknown; 5];
    let out = vec![Cell::Unknown, Cell::Unknown, Cell::Filled, Cell::Unknown, Cell::Unknown];
    assert_eq!(solve_line(&vec![3], &known), Ok(out));
}

#[test]
fn known_cells_narrow_placements() {
    let known = vec![Cell::Filled, Cell::Unknown, Cell::Unknown, Cell::Unknown];
    let out = vec![Cell::Filled, Cell::Empty, Cell::Unknown, Cell::Unknown];
    assert_eq!(solve_line(&vec![1, 1], &known), Ok(out));
}

#[test]
fn tight_clue_decides_every_cell() {
    let known = vec![Cell::Unknown; 6];
    let out = vec![
        Cell::Filled,
        Cell::Filled,
        Cell::Empty,
        Cell::Filled,
        Cell::Empty,
        Cell::Filled,
    ];
    assert_eq!(solve_line(&vec![2, 1, 1], &known), Ok(out));
}

#[test]
fn line_without_room_contradicts() {
    let known = vec![Cell::Unknown; 3];
    assert_eq!(solve_line(&vec![2, 1], &known), Err(Contradiction));
    let known = vec![Cell::Unknown, Cell::Filled, Cell::Unknown];
    assert_eq!(solve_line(&vec![0], &known), Err(Contradiction));
}

#[test]
fn row_clue_too_long_is_rejected() {
    let puzzle = Nonogram { cols: vec![vec![1]], rows: vec![vec![3]] };
    let e = InvalidClue { axis: Axis::Row, index: 0, fault: ClueFault::TooLong };
    assert_eq!(puzzle.validate(), Err(e));
    assert_eq!(puzzle.solve(), Err(SolveFailure::InvalidClue(e)));
}

#[test]
fn zero_beside_runs_is_rejected() {
    let puzzle = Nonogram {
        cols: vec![vec![1], vec![0], vec![1]],
        rows: vec![vec![1, 1], vec![1, 0]],
    };
    let e = InvalidClue { axis: Axis::Row, index: 1, fault: ClueFault::ZeroRun };
    assert_eq!(puzzle.solve(), Err(SolveFailure::InvalidClue(e)));
}

#[test]
fn column_clue_too_long_is_rejected() {
    let puzzle = Nonogram {
        cols: vec![vec![1], vec![1, 1]],
        rows: vec![vec![1], vec![2]],
    };
    let e = InvalidClue { axis: Axis::Column, index: 1, fault: ClueFault::TooLong };
    assert_eq!(puzzle.validate(), Err(e));
}

#[test]
fn clue_span_counts_gaps() {
    assert_eq!(check_clue(&vec![2, 1], 4), None);
    assert_eq!(check_clue(&vec![2, 1], 3), Some(ClueFault::TooLong));
    assert_eq!(check_clue(&vec![0], 0), None);
    assert_eq!(check_clue(&vec![], 0), None);
    assert_eq!(check_clue(&vec![255], 255), None);
    assert_eq!(check_clue(&vec![0, 0], 9), Some(ClueFault::ZeroRun));
}

#[test]
fn conflicting_lines_report_contradiction() {
    let puzzle = Nonogram { cols: vec![vec![0]], rows: vec![vec![1]] };
    let e = SolveFailure::Contradiction { axis: Axis::Column, index: 0 };
    assert_eq!(puzzle.clone().solve(), Err(e.clone()));
    let e = SolveFailure::Contradiction { axis: Axis::Row, index: 0 };
    assert_eq!(puzzle.propagate(true), Err(e));
}

#[test]
fn pass_order_gives_same_fixpoint() {
    let puzzle = puzzle_15();
    assert_eq!(puzzle.propagate(false), puzzle.propagate(true));
    let puzzle = Nonogram {
        cols: vec![vec![1], vec![2], vec![1]],
        rows: vec![vec![1], vec![2], vec![1]],
    };
    let rows = puzzle.propagate(false).unwrap();
    assert_eq!(Ok(rows.clone()), puzzle.propagate(true));
    assert_eq!(rows[1][1], Cell::Filled);
    assert_eq!(rows[0][0], Cell::Unknown);
}

#[test]
fn non_square_puzzle_solves() {
    let puzzle = Nonogram {
        cols: vec![vec![2], vec![1], vec![1]],
        rows: vec![vec![3], vec![1]],
    };
    let expected = SolvedNonogram::try_from("1 1 1\n1 0 0").unwrap();
    assert_eq!(puzzle.solve(), Ok(expected));
}

#[test]
fn unique_puzzle_can_stall_propagation() {
    let puzzle = Nonogram {
        cols: vec![vec![1], vec![1], vec![1], vec![1]],
        rows: vec![vec![1, 1], vec![2], vec![0], vec![0]],
    };
    match puzzle.solve() {
        Err(SolveFailure::Underdetermined { cells }) => {
            assert_eq!(cells[2], vec![Cell::Empty; 4]);
            assert_eq!(cells[0][0], Cell::Unknown);
        }
        other => panic!("expected a stalled propagation, got {:?}", other),
    }
}

#[test]
fn construction_checks_clues() {
    let puzzle = Nonogram::new(vec![vec![1], vec![1]], vec![vec![2], vec![0]]).unwrap();
    assert_eq!(puzzle.rows, vec![vec![2], vec![0]]);
    let e = InvalidClue { axis: Axis::Column, index: 0, fault: ClueFault::TooLong };
    assert_eq!(Nonogram::new(vec![vec![1, 1], vec![1]], vec![vec![2], vec![0]]).unwrap_err(), e);
}

#[test]
fn contradiction_names_failing_column() {
    let puzzle = Nonogram { cols: vec![vec![2], vec![0]], rows: vec![vec![0], vec![1]] };
    let e = SolveFailure::Contradiction { axis: Axis::Column, index: 0 };
    assert_eq!(puzzle.solve(), Err(e));
}

#[test]
fn transposed_puzzle_gives_transposed_fixpoint() {
    let puzzles = vec![
        puzzle_15(),
        Nonogram { cols: vec![vec![1], vec![2], vec![1]], rows: vec![vec![1], vec![2], vec![1]] },
        Nonogram { cols: vec![vec![1], vec![1, 1], vec![0]], rows: vec![vec![2], vec![0], vec![1]] },
    ];
    for p in puzzles {
        let q = Nonogram { cols: p.rows.clone(), rows: p.cols.clone() };
        let a = p.propagate(true).unwrap();
        let b = q.propagate(false).unwrap();
        for r in 0..a.len() {
            for c in 0..a[r].len() {
                assert_eq!(a[r][c], b[c][r]);
            }
        }
    }
}
