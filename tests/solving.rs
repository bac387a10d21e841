use sudoku::{Cell, SudokuSolver};

fn board_from(rows: [&str; 9]) -> SudokuSolver {
    let mut app = SudokuSolver::new();
    for (r, line) in rows.iter().enumerate() {
        for (c, ch) in line.chars().enumerate() {
            if let Some(v) = ch.to_digit(10) {
                app.set_cell(r, c, Cell::Digit(v as u8));
            }
        }
    }
    app
}

fn snapshot(app: &SudokuSolver) -> Vec<Vec<Cell>> {
    let mut out = Vec::new();
    for r in 0..9 {
        let mut row = Vec::new();
        for c in 0..9 {
            row.push(app.cell(r, c));
        }
        out.push(row);
    }
    out
}

fn is_permutation(cells: &[Cell]) -> bool {
    let mut seen = [false; 9];
    for cell in cells {
        match cell {
            Cell::Digit(v) if (1..=9).contains(v) => seen[(*v - 1) as usize] = true,
            _ => return false,
        }
    }
    cells.len() == 9 && seen.iter().all(|s| *s)
}

fn all_units_are_permutations(g: &[Vec<Cell>]) -> bool {
    for i in 0..9 {
        let row: Vec<Cell> = g[i].clone();
        let col: Vec<Cell> = (0..9).map(|r| g[r][i]).collect();
        let bx: Vec<Cell> = (0..9).map(|k| g[3 * (i / 3) + k / 3][3 * (i % 3) + k % 3]).collect();
        if !is_permutation(&row) || !is_permutation(&col) || !is_permutation(&bx) {
            return false;
        }
    }
    true
}

const PUZZLE: [&str; 9] = [
    "53..7....",
    "6..195...",
    ".98....6.",
    "8...6...3",
    "4..8.3..1",
    "7...2...6",
    ".6....28.",
    "...419..5",
    "....8..79",
];

const SOLUTION: [&str; 9] = [
    "534678912",
    "672195348",
    "198342567",
    "859761423",
    "426853791",
    "713924856",
    "961537284",
    "287419635",
    "345286179",
];

#[test]
fn solves_the_classic_puzzle() {
    let mut app = board_from(PUZZLE);
    assert_eq!(app.validate(), Ok(()));
    assert!(app.solve_sudoku());
    assert_eq!(snapshot(&app), snapshot(&board_from(SOLUTION)));
    assert!(!app.is_unsolvable_message_shown());
}

#[test]
fn solve_keeps_every_clue() {
    let clues = board_from(PUZZLE);
    let mut app = board_from(PUZZLE);
    assert!(app.solve());
    for r in 0..9 {
        for c in 0..9 {
            if let Cell::Digit(v) = clues.cell(r, c) {
                assert_eq!(app.cell(r, c), Cell::Digit(v));
            }
        }
    }
    assert!(all_units_are_permutations(&snapshot(&app)));
}

#[test]
fn solves_the_empty_board() {
    let mut app = SudokuSolver::new();
    assert!(app.solve_sudoku());
    let g = snapshot(&app);
    assert!(all_units_are_permutations(&g));
    assert_eq!(app.validate(), Ok(()));
}

#[test]
fn solving_the_empty_board_gives_the_first_completion() {
    let mut app = SudokuSolver::new();
    assert!(app.solve());
    let expected = board_from([
        "123456789",
        "456789123",
        "789123456",
        "214365897",
        "365897214",
        "897214365",
        "531642978",
        "642978531",
        "978531642",
    ]);
    assert_eq!(snapshot(&app), snapshot(&expected));
}

#[test]
fn conflicting_board_is_refused_and_left_alone() {
    let mut app = SudokuSolver::new();
    app.set_cell(0, 0, Cell::Digit(5));
    app.set_cell(0, 1, Cell::Digit(3));
    app.set_cell(0, 2, Cell::Digit(5));
    let before = snapshot(&app);
    assert!(!app.solve_sudoku());
    assert!(app.has_error());
    assert!(app.is_unsolvable_message_shown());
    assert_eq!(snapshot(&app), before);
}

#[test]
fn unsolvable_board_without_conflict_is_left_unchanged() {
    let mut app = board_from([
        "12345678.",
        "........9",
        ".........",
        ".........",
        ".........",
        ".........",
        ".........",
        ".........",
        ".........",
    ]);
    assert_eq!(app.validate(), Ok(()));
    let before = snapshot(&app);
    assert!(!app.solve_sudoku());
    assert!(!app.has_error());
    assert_eq!(snapshot(&app), before);
}

#[test]
fn unsolvable_after_search_is_left_unchanged() {
    // (0,7) can take only 8, which leaves only 9 for (0,8), but column 8
    // already has a 9: the search writes 8 and must undo it.
    let mut app = board_from([
        "1234567..",
        ".........",
        ".........",
        ".........",
        "........9",
        ".........",
        ".......9.",
        ".........",
        ".........",
    ]);
    assert_eq!(app.validate(), Ok(()));
    let before = snapshot(&app);
    assert!(!app.solve());
    assert_eq!(snapshot(&app), before);
}

#[test]
fn solving_a_solved_board_changes_nothing() {
    let mut app = board_from(SOLUTION);
    assert!(app.solve_sudoku());
    assert_eq!(snapshot(&app), snapshot(&board_from(SOLUTION)));
}

#[test]
fn reset_clears_every_cell_and_the_notice() {
    let mut app = board_from(PUZZLE);
    app.show_unsolvable_message();
    assert!(app.is_unsolvable_message_shown());
    app.reset_grid();
    assert!(!app.is_unsolvable_message_shown());
    assert_eq!(snapshot(&app), snapshot(&SudokuSolver::new()));
    app.show_unsolvable_message();
    app.dismiss_unsolvable_message();
    assert!(!app.is_unsolvable_message_shown());
}

#[test]
fn load_writes_clues_onto_a_cleared_board() {
    let mut app = board_from(SOLUTION);
    app.show_unsolvable_message();
    app.load(&vec![(0, 0, 5), (0, 1, 3), (4, 4, 7), (0, 0, 6)]);
    assert!(!app.is_unsolvable_message_shown());
    let mut expected = SudokuSolver::new();
    expected.set_cell(0, 0, Cell::Digit(6));
    expected.set_cell(0, 1, Cell::Digit(3));
    expected.set_cell(4, 4, Cell::Digit(7));
    assert_eq!(snapshot(&app), snapshot(&expected));
    assert_eq!(app.board(), &snapshot(&expected));
}

#[test]
fn default_is_the_empty_board() {
    let app = SudokuSolver::default();
    assert_eq!(snapshot(&app), snapshot(&SudokuSolver::new()));
    assert!(!app.has_error());
    assert!(!app.is_unsolvable_message_shown());
    for r in 0..9 {
        for c in 0..9 {
            assert_eq!(app.cell(r, c), Cell::Empty);
        }
    }
}
