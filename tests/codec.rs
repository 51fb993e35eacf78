use nonogram::codec::GridTextError;
use nonogram::SolvedNonogram;

#[test]
fn renders_canonical_text() {
    let grid = SolvedNonogram { rows: vec![vec![true, false], vec![false, true]] };
    assert_eq!(grid.to_text(), "1 0\n0 1");
    let single = SolvedNonogram { rows: vec![vec![true]] };
    assert_eq!(single.to_text(), "1");
}

#[test]
fn parses_trimmed_rows() {
    let grid = SolvedNonogram::try_from("  \n 1 0 1 \n\t0 1 0\n\n").unwrap();
    assert_eq!(grid.rows, vec![vec![true, false, true], vec![false, true, false]]);
}

#[test]
fn round_trip_keeps_grid() {
    let grid = SolvedNonogram {
        rows: vec![vec![true, false, false], vec![false, false, true], vec![true, true, true]],
    };
    assert_eq!(SolvedNonogram::try_from(grid.to_text().as_str()), Ok(grid.clone()));
    let wide = SolvedNonogram { rows: vec![vec![false, true, true, false, true]] };
    assert_eq!(SolvedNonogram::try_from(wide.to_text().as_str()), Ok(wide.clone()));
}

#[test]
fn rows_of_unequal_length_are_rejected() {
    assert_eq!(SolvedNonogram::try_from("1 0\n1"), Err(GridTextError::MismatchedColumns));
    assert_eq!(SolvedNonogram::try_from("1 0\n1 2 0"), Err(GridTextError::MismatchedColumns));
}

#[test]
fn foreign_tokens_are_rejected() {
    assert_eq!(
        SolvedNonogram::try_from("1 0\n1 2"),
        Err(GridTextError::InvalidToken("2".to_string()))
    );
    assert_eq!(
        SolvedNonogram::try_from("1  0"),
        Err(GridTextError::InvalidToken("".to_string()))
    );
    assert_eq!(
        SolvedNonogram::try_from("10 01"),
        Err(GridTextError::InvalidToken("10".to_string()))
    );
}

#[test]
fn unicode_white_space_is_trimmed() {
    let grid = SolvedNonogram::try_from("1\u{0B}").unwrap();
    assert_eq!(grid.rows, vec![vec![true]]);
    let grid = SolvedNonogram::try_from("\u{3000}0 1\u{A0}\n\u{2003}1 0\u{0C}").unwrap();
    assert_eq!(grid.rows, vec![vec![false, true], vec![true, false]]);
    assert_eq!(SolvedNonogram::try_from("1 1\n\u{0B} 1"), Err(GridTextError::MismatchedColumns));
    assert_eq!(
        SolvedNonogram::try_from("\u{0B}2"),
        Err(GridTextError::InvalidToken("2".to_string()))
    );
}

#[test]
fn first_foreign_token_is_named() {
    assert_eq!(
        SolvedNonogram::try_from("1 x\ny 0"),
        Err(GridTextError::InvalidToken("x".to_string()))
    );
    assert_eq!(
        SolvedNonogram::try_from("1 0\n0 a\nb 1"),
        Err(GridTextError::InvalidToken("a".to_string()))
    );
}
