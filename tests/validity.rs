use sudoku::{Cell, Conflict, SudokuSolver};

fn d(n: u8) -> Cell {
    Cell::Digit(n)
}

#[test]
fn test_row_validity() {
    let mut app = SudokuSolver::new();
    app.grid[0] = vec![
        d(5),
        d(3),
        Cell::Empty,
        Cell::Empty,
        d(7),
        Cell::Empty,
        Cell::Empty,
        Cell::Empty,
        Cell::Empty,
    ];
    assert!(app.is_row_valid(0) == true);

    app.grid[0][1] = d(5);
    assert!(app.is_row_valid(0) == false);
}

#[test]
fn test_col_validity() {
    let mut app = SudokuSolver::new();
    app.grid[0][0] = d(5);
    app.grid[1][0] = d(6);
    assert!(app.is_col_valid(0) == true);

    app.grid[2][0] = d(5);
    assert!(app.is_col_valid(0) == false);
}

#[test]
fn test_subgrid_validity() {
    let mut app = SudokuSolver::new();
    app.grid[0][0] = d(5);
    app.grid[1][1] = d(5);
    assert!(app.is_subgrid_valid(0, 0) == false);

    app.grid[0][2] = d(5);
    assert!(app.is_subgrid_valid(0, 0) == false);
}

#[test]
fn empty_board_is_valid() {
    let app = SudokuSolver::new();
    assert_eq!(app.validate(), Ok(()));
}

#[test]
fn duplicate_in_first_row_is_a_row_conflict() {
    let mut app = SudokuSolver::new();
    app.set_cell(0, 0, d(5));
    app.set_cell(0, 1, d(3));
    app.set_cell(0, 2, d(5));
    assert_eq!(app.validate(), Err(Conflict::Row(0)));
}

#[test]
fn duplicate_in_column_is_a_column_conflict() {
    let mut app = SudokuSolver::new();
    app.set_cell(1, 4, d(8));
    app.set_cell(7, 4, d(8));
    assert_eq!(app.validate(), Err(Conflict::Column(4)));
}

#[test]
fn duplicate_in_box_is_a_box_conflict() {
    let mut app = SudokuSolver::new();
    app.set_cell(3, 6, d(2));
    app.set_cell(5, 8, d(2));
    assert_eq!(app.validate(), Err(Conflict::Box(1, 2)));
}

#[test]
fn same_digit_in_different_units_is_valid() {
    let mut app = SudokuSolver::new();
    app.set_cell(0, 0, d(4));
    app.set_cell(1, 3, d(4));
    app.set_cell(2, 6, d(4));
    app.set_cell(3, 1, d(4));
    assert_eq!(app.validate(), Ok(()));
}

#[test]
fn validate_twice_gives_the_same_result() {
    let mut app = SudokuSolver::new();
    app.set_cell(0, 0, d(1));
    app.set_cell(8, 0, d(1));
    let first = app.validate();
    let second = app.validate();
    assert_eq!(first, Err(Conflict::Column(0)));
    assert_eq!(first, second);

    app.set_cell(8, 0, Cell::Empty);
    assert_eq!(app.validate(), Ok(()));
    assert_eq!(app.validate(), Ok(()));
}

#[test]
fn check_for_errors_sets_the_flag() {
    let mut app = SudokuSolver::new();
    app.check_for_errors();
    assert!(!app.has_error());
    app.set_cell(4, 4, d(9));
    app.set_cell(4, 5, d(9));
    app.check_for_errors();
    assert!(app.has_error());
    app.set_cell(4, 5, Cell::Empty);
    app.check_for_errors();
    assert!(!app.has_error());
}

#[test]
fn parse_reads_empty_and_single_digits() {
    assert_eq!(Cell::parse(""), Ok(Cell::Empty));
    assert_eq!(Cell::parse("1"), Ok(d(1)));
    assert_eq!(Cell::parse("7"), Ok(d(7)));
    assert_eq!(Cell::parse("9"), Ok(d(9)));
}

#[test]
fn parse_refuses_malformed_text() {
    assert!(Cell::parse("0").is_err());
    assert!(Cell::parse("10").is_err());
    assert!(Cell::parse("a").is_err());
    assert!(Cell::parse(" 5").is_err());
    assert!(Cell::parse("55").is_err());
    assert!(Cell::parse("٥").is_err());
}
