//! The board, its validator and its backtracking solver.
use vstd::prelude::*;
use crate::cell::{Cell, Conflict};
use crate::rules::{
    box_cells, boxes_from, clash, clue_in_range, col_cells, complete, consistent, digit_of,
    empty_board, extends, filled_before, has_repeat, is_solution_of, lex_first, lines_from,
    load_board, no_repeat, place, placeable, same_unit, solvable, validation, well_formed, Grid,
};
use crate::rules::{
    lemma_place_keeps_rules, lemma_solution_of_placed, lemma_solution_through,
    lemma_solvable_is_valid, lemma_validation_matches_rules,
};

verus! {

/// A 9×9 board, with the flags that a front end reads.
pub struct SudokuSolver {
    pub grid: Vec<Vec<Cell>>,
    show_unsolvable_popup: bool,
    has_error: bool,
}

impl View for SudokuSolver {
    type V = Grid;

    closed spec fn view(&self) -> Grid {
        self.grid@.map_values(|row: Vec<Cell>| row@)
    }
}

impl SudokuSolver {
    pub open spec fn wf(&self) -> bool {
        well_formed(self@)
    }

    pub closed spec fn popup_shown(&self) -> bool {
        self.show_unsolvable_popup
    }

    pub closed spec fn error_flag(&self) -> bool {
        self.has_error
    }

    /// A board with every cell unassigned.
    pub fn new() -> (s: Self)
        ensures
            s.wf(),
            s@ == empty_board(),
            !s.popup_shown(),
            !s.error_flag(),
    {
        SudokuSolver { grid: empty_grid(), show_unsolvable_popup: false, has_error: false }
    }

    /// Clears every cell and dismisses the unsolvable notice.
    pub fn reset_grid(&mut self)
        ensures
            final(self).wf(),
            final(self)@ == empty_board(),
            !final(self).popup_shown(),
            final(self).error_flag() == old(self).error_flag(),
    {
        self.grid = empty_grid();
        self.show_unsolvable_popup = false;
    }

    /// Raises the notice that the board cannot be solved.
    pub fn show_unsolvable_message(&mut self)
        ensures
            final(self)@ == old(self)@,
            final(self).popup_shown(),
            final(self).error_flag() == old(self).error_flag(),
    {
        self.show_unsolvable_popup = true;
    }

    /// Dismisses the notice that the board cannot be solved.
    pub fn dismiss_unsolvable_message(&mut self)
        ensures
            final(self)@ == old(self)@,
            !final(self).popup_shown(),
            final(self).error_flag() == old(self).error_flag(),
    {
        self.show_unsolvable_popup = false;
    }

    /// Whether the notice that the board cannot be solved is raised.
    pub fn is_unsolvable_message_shown(&self) -> (r: bool)
        ensures
            r == self.popup_shown(),
    {
        self.show_unsolvable_popup
    }

    /// Whether the last check found a unit in conflict.
    pub fn has_error(&self) -> (r: bool)
        ensures
            r == self.error_flag(),
    {
        self.has_error
    }

    /// The board's rows, for reading.
    pub fn board(&self) -> (b: &Vec<Vec<Cell>>)
        ensures
            b@.map_values(|row: Vec<Cell>| row@) == self@,
    {
        &self.grid
    }

    /// Clears the board, then writes each clue `(row, col, digit)` in turn.
    pub fn load(&mut self, clues: &Vec<(usize, usize, u8)>)
        requires
            forall|i: int| 0 <= i < clues.len() ==> clue_in_range(#[trigger] clues@[i]),
        ensures
            final(self).wf(),
            final(self)@ == load_board(clues@),
            !final(self).popup_shown(),
            final(self).error_flag() == old(self).error_flag(),
    {
        self.reset_grid();
        let mut i: usize = 0;
        while i < clues.len()
            invariant
                i <= clues.len(),
                forall|k: int| 0 <= k < clues.len() ==> clue_in_range(#[trigger] clues@[k]),
                self.wf(),
                self@ == load_board(clues@.take(i as int)),
                !self.popup_shown(),
                self.error_flag() == old(self).error_flag(),
            decreases clues.len() - i,
        {
            let (row, col, digit) = clues[i];
            assert(clue_in_range(clues@[i as int]));
            self.set_cell(row, col, Cell::Digit(digit));
            assert(clues@.take(i + 1).drop_last() =~= clues@.take(i as int));
            i = i + 1;
        }
        assert(clues@.take(clues.len() as int) =~= clues@);
    }

    /// The cell at `(row, col)`.
    pub fn cell(&self, row: usize, col: usize) -> (c: Cell)
        requires
            self.wf(),
            row < 9,
            col < 9,
        ensures
            c == self@[row as int][col as int],
    {
        assert(self@[row as int][col as int] == self.grid@[row as int]@[col as int]);
        self.grid[row][col]
    }

    /// Writes `cell` at `(row, col)`.
    pub fn set_cell(&mut self, row: usize, col: usize, cell: Cell)
        requires
            old(self).wf(),
            row < 9,
            col < 9,
            cell.valid(),
        ensures
            final(self).wf(),
            final(self)@ == old(self)@.update(row as int, old(self)@[row as int].update(col as int, cell)),
            final(self).popup_shown() == old(self).popup_shown(),
            final(self).error_flag() == old(self).error_flag(),
    {
        let ghost g = self@;
        let ghost before = self.grid@;
        assert(self.grid@[row as int]@ == g[row as int]);
        self.grid[row][col] = cell;
        assert forall|i: int| 0 <= i < 9 && i != row implies self@[i] == g[i] by {
            assert(self.grid@[i] == before[i]);
        }
        assert(self@[row as int] =~= g[row as int].update(col as int, cell));
        assert(self@ =~= g.update(row as int, g[row as int].update(col as int, cell)));
    }

    /// The first unassigned cell in row-major order.
    fn find_unassigned_location(&self) -> (loc: Option<(usize, usize)>)
        requires
            self.wf(),
        ensures
            match loc {
                Some((r, c)) => r < 9 && c < 9 && self@[r as int][c as int] is Empty
                    && filled_before(self@, r * 9 + c),
                None => complete(self@),
            },
    {
        let mut row: usize = 0;
        while row < 9
            invariant
                row <= 9,
                self.wf(),
                filled_before(self@, row * 9),
            decreases 9 - row,
        {
            let mut col: usize = 0;
            while col < 9
                invariant
                    row < 9,
                    col <= 9,
                    self.wf(),
                    filled_before(self@, row * 9 + col),
                decreases 9 - col,
            {
                assert(self@[row as int][col as int] == self.grid@[row as int]@[col as int]);
                if self.grid[row][col].is_empty() {
                    return Some((row, col));
                }
                col = col + 1;
            }
            row = row + 1;
        }
        None
    }

    /// Whether `num` is assigned somewhere in row `row`.
    fn used_in_row(&self, row: usize, num: u8) -> (r: bool)
        requires
            self.wf(),
            row < 9,
        ensures
            r == exists|c: int| 0 <= c < 9 && #[trigger] self@[row as int][c] == Cell::Digit(num),
    {
        let mut col: usize = 0;
        while col < 9
            invariant
                col <= 9,
                row < 9,
                self.wf(),
                forall|c: int| 0 <= c < col ==> #[trigger] self@[row as int][c] != Cell::Digit(num),
            decreases 9 - col,
        {
            assert(self@[row as int][col as int] == self.grid@[row as int]@[col as int]);
            if self.grid[row][col] == Cell::Digit(num) {
                return true;
            }
            col = col + 1;
        }
        false
    }

    /// Whether `num` is assigned somewhere in column `col`.
    fn used_in_col(&self, col: usize, num: u8) -> (r: bool)
        requires
            self.wf(),
            col < 9,
        ensures
            r == exists|row: int| 0 <= row < 9 && #[trigger] self@[row][col as int] == Cell::Digit(num),
    {
        let mut row: usize = 0;
        while row < 9
            invariant
                row <= 9,
                col < 9,
                self.wf(),
                forall|r: int| 0 <= r < row ==> #[trigger] self@[r][col as int] != Cell::Digit(num),
            decreases 9 - row,
        {
            assert(self@[row as int][col as int] == self.grid@[row as int]@[col as int]);
            if self.grid[row][col] == Cell::Digit(num) {
                return true;
            }
            row = row + 1;
        }
        false
    }

    /// Whether `num` is assigned somewhere in the 3×3 block whose top-left
    /// cell is `(box_start_row, box_start_col)`.
    fn used_in_box(&self, box_start_row: usize, box_start_col: usize, num: u8) -> (r: bool)
        requires
            self.wf(),
            box_start_row <= 6,
            box_start_col <= 6,
        ensures
            r == exists|i: int, j: int|
                0 <= i < 3 && 0 <= j < 3
                    && #[trigger] self@[box_start_row + i][box_start_col + j] == Cell::Digit(num),
    {
        let mut i: usize = 0;
        while i < 3
            invariant
                i <= 3,
                box_start_row <= 6,
                box_start_col <= 6,
                self.wf(),
                forall|i2: int, j2: int| 0 <= i2 < i && 0 <= j2 < 3
                    ==> #[trigger] self@[box_start_row + i2][box_start_col + j2] != Cell::Digit(num),
            decreases 3 - i,
        {
            let mut j: usize = 0;
            while j < 3
                invariant
                    i < 3,
                    j <= 3,
                    box_start_row <= 6,
                    box_start_col <= 6,
                    self.wf(),
                    forall|i2: int, j2: int| 0 <= i2 < i && 0 <= j2 < 3
                        ==> #[trigger] self@[box_start_row + i2][box_start_col + j2] != Cell::Digit(num),
                    forall|j2: int| 0 <= j2 < j
                        ==> #[trigger] self@[box_start_row + i][box_start_col + j2] != Cell::Digit(num),
                decreases 3 - j,
            {
                let r = box_start_row + i;
                let c = box_start_col + j;
                assert(self@[r as int][c as int] == self.grid@[r as int]@[c as int]);
                if self.grid[r][c] == Cell::Digit(num) {
                    return true;
                }
                j = j + 1;
            }
            i = i + 1;
        }
        false
    }

    /// Whether `num` can be written at `(row, col)`: it is assigned nowhere in
    /// that cell's row, column or box.
    fn is_safe(&self, row: usize, col: usize, num: u8) -> (r: bool)
        requires
            self.wf(),
            row < 9,
            col < 9,
        ensures
            r == placeable(self@, row as int, col as int, num),
    {
        let in_row = self.used_in_row(row, num);
        let in_col = self.used_in_col(col, num);
        let in_box = self.used_in_box(row - row % 3, col - col % 3, num);
        let g = Ghost(self@);
        proof {
            let br = row - row % 3;
            let bc = col - col % 3;
            if in_box {
                let (i, j) = choose|i: int, j: int|
                    0 <= i < 3 && 0 <= j < 3 && #[trigger] g@[br + i][bc + j] == Cell::Digit(num);
                assert(same_unit(row as int, col as int, br + i, bc + j));
            }
            if !in_box && !in_row && !in_col {
                assert forall|r2: int, c2: int|
                    0 <= r2 < 9 && 0 <= c2 < 9 && same_unit(row as int, col as int, r2, c2)
                        implies #[trigger] g@[r2][c2] != Cell::Digit(num) by {
                    if r2 != row && c2 != col {
                        assert(g@[br + (r2 - br)][bc + (c2 - bc)] != Cell::Digit(num));
                    }
                }
            }
        }
        !in_row && !in_col && !in_box
    }

    /// Checks the board and records in the error flag whether some unit
    /// assigns a digit twice.
    pub fn check_for_errors(&mut self)
        requires
            old(self).wf(),
        ensures
            final(self)@ == old(self)@,
            final(self).error_flag() == !consistent(old(self)@),
            final(self).popup_shown() == old(self).popup_shown(),
    {
        self.has_error = self.validate().is_err();
    }

    /// Checks the board, then completes it if it can be completed. A board
    /// with a unit in conflict is left alone, with the error flag and the
    /// unsolvable notice raised; a board that cannot be completed is left
    /// unchanged.
    pub fn solve_sudoku(&mut self) -> (solved: bool)
        requires
            old(self).wf(),
        ensures
            final(self).wf(),
            solved == solvable(old(self)@),
            solved ==> is_solution_of(old(self)@, final(self)@),
            solved ==> forall|s: Grid| #[trigger] is_solution_of(old(self)@, s) ==> lex_first(final(self)@, s),
            !solved ==> final(self)@ == old(self)@,
            final(self).error_flag() == !consistent(old(self)@),
            final(self).popup_shown() == (old(self).popup_shown() || !consistent(old(self)@)),
    {
        let ghost g = self@;
        self.check_for_errors();
        if self.has_error {
            self.show_unsolvable_message();
            proof {
                if solvable(g) {
                    lemma_solvable_is_valid(g);
                }
            }
            false
        } else {
            self.solve()
        }
    }

    /// Completes a consistent board by backtracking. On success the board
    /// is the solution that comes first in row-major order among those that
    /// keep every assigned cell; on failure it is unchanged, and no solution
    /// exists.
    pub fn solve(&mut self) -> (solved: bool)
        requires
            old(self).wf(),
            consistent(old(self)@),
        ensures
            final(self).wf(),
            solved == solvable(old(self)@),
            solved ==> is_solution_of(old(self)@, final(self)@),
            solved ==> forall|s: Grid| #[trigger] is_solution_of(old(self)@, s) ==> lex_first(final(self)@, s),
            !solved ==> final(self)@ == old(self)@,
            final(self).popup_shown() == old(self).popup_shown(),
            final(self).error_flag() == old(self).error_flag(),
    {
        self.search(Ghost(0))
    }

    /// Completes a consistent board by backtracking: the first unassigned cell
    /// in row-major order takes digits 1 to 9 in turn, each undone when the
    /// rest of the board cannot be completed after it. Every cell before
    /// position `start` is assigned.
    fn search(&mut self, start: Ghost<int>) -> (solved: bool)
        requires
            old(self).wf(),
            consistent(old(self)@),
            0 <= start@ <= 81,
            filled_before(old(self)@, start@),
        ensures
            final(self).wf(),
            final(self).show_unsolvable_popup == old(self).show_unsolvable_popup,
            final(self).has_error == old(self).has_error,
            solved ==> is_solution_of(old(self)@, final(self)@),
            solved ==> forall|s: Grid| #[trigger] is_solution_of(old(self)@, s) ==> lex_first(final(self)@, s),
            !solved ==> final(self)@ == old(self)@ && !solvable(old(self)@),
        decreases 81 - start@,
    {
        let ghost g = self@;
        match self.find_unassigned_location() {
            None => {
                assert(extends(g, g));
                assert forall|s: Grid| #[trigger] is_solution_of(g, s) implies lex_first(g, s) by {
                    assert forall|r: int, c: int| 0 <= r < 9 && 0 <= c < 9 implies #[trigger] g[r][c] == s[r][c] by {
                        assert(g[r][c] is Digit);
                    }
                }
                true
            },
            Some((row, col)) => {
                let ghost popup = self.show_unsolvable_popup;
                let ghost flag = self.has_error;
                assert(start@ <= row * 9 + col) by {
                    if row * 9 + col < start@ {
                        assert(g[row as int][col as int] is Digit);
                    }
                }
                assert forall|s: Grid| #[trigger] is_solution_of(g, s)
                    implies s[row as int][col as int]->Digit_0 >= 1 by {
                    assert(s[row as int][col as int].valid());
                }
                let mut num: u8 = 1;
                while num <= 9
                    invariant
                        1 <= num <= 10,
                        g == old(self)@,
                        popup == old(self).show_unsolvable_popup,
                        flag == old(self).has_error,
                        start@ <= row * 9 + col,
                        row < 9,
                        col < 9,
                        self@ == g,
                        self.wf(),
                        self.show_unsolvable_popup == popup,
                        self.has_error == flag,
                        well_formed(g),
                        consistent(g),
                        g[row as int][col as int] is Empty,
                        filled_before(g, row * 9 + col),
                        forall|s: Grid| #[trigger] is_solution_of(g, s)
                            ==> s[row as int][col as int]->Digit_0 >= num,
                    decreases 10 - num,
                {
                    let safe = self.is_safe(row, col, num);
                    if safe {
                        let ghost h = place(g, row as int, col as int, num);
                        proof {
                            lemma_place_keeps_rules(g, row as int, col as int, num);
                        }
                        self.grid[row][col] = Cell::Digit(num);
                        assert(self@ =~~= h);
                        if self.search(Ghost(row * 9 + col + 1)) {
                            proof {
                                lemma_solution_of_placed(g, self@, row as int, col as int, num);
                                let t = self@;
                                assert(t[row as int][col as int] == Cell::Digit(num));
                                assert forall|s: Grid| #[trigger] is_solution_of(g, s) implies lex_first(t, s) by {
                                    if s[row as int][col as int] == Cell::Digit(num) {
                                        lemma_solution_through(g, s, row as int, col as int, num);
                                        assert(is_solution_of(h, s));
                                    } else {
                                        assert(s[row as int][col as int].valid());
                                        assert forall|r2: int, c2: int|
                                            0 <= r2 < 9 && 0 <= c2 < 9 && r2 * 9 + c2 < row * 9 + col
                                                implies #[trigger] t[r2][c2] == s[r2][c2] by {
                                            assert(g[r2][c2] is Digit);
                                        }
                                        assert(digit_of(t[row as int][col as int]) < digit_of(s[row as int][col as int]));
                                    }
                                }
                            }
                            return true;
                        }
                        assert(self@ == h);
                        let ghost before = self.grid@;
                        self.grid[row][col] = Cell::Empty;
                        assert(self@[row as int] =~= g[row as int]);
                        assert forall|i: int| 0 <= i < 9 && i != row implies self@[i] == g[i] by {
                            assert(self.grid@[i] == before[i]);
                            assert(h[i] == g[i]);
                        }
                        assert(self@ =~= g);
                        assert forall|s: Grid| #[trigger] is_solution_of(g, s)
                            implies s[row as int][col as int] != Cell::Digit(num) by {
                            if s[row as int][col as int] == Cell::Digit(num) {
                                lemma_solution_through(g, s, row as int, col as int, num);
                                assert(is_solution_of(h, s));
                            }
                        }
                    } else {
                        assert forall|s: Grid| #[trigger] is_solution_of(g, s)
                            implies s[row as int][col as int] != Cell::Digit(num) by {
                            if s[row as int][col as int] == Cell::Digit(num) {
                                lemma_solution_through(g, s, row as int, col as int, num);
                            }
                        }
                    }
                    num = num + 1;
                }
                assert forall|s: Grid| #[trigger] is_solution_of(g, s) implies false by {
                    assert(s[row as int][col as int].valid());
                }
                false
            },
        }
    }

    /// Whether row `row` assigns no digit twice.
    pub fn is_row_valid(&self, row: usize) -> (r: bool)
        requires
            self.wf(),
            row < 9,
        ensures
            r == no_repeat(self@[row as int]),
    {
        assert(self.grid@[row as int]@ == self@[row as int]);
        assert forall|i: int| 0 <= i < 9 implies (#[trigger] self.grid@[row as int]@[i]).valid() by {
            assert(self@[row as int][i].valid());
        }
        has_no_repeat(&self.grid[row])
    }

    /// Whether column `col` assigns no digit twice.
    pub fn is_col_valid(&self, col: usize) -> (r: bool)
        requires
            self.wf(),
            col < 9,
        ensures
            r == no_repeat(col_cells(self@, col as int)),
    {
        let mut cells: Vec<Cell> = Vec::new();
        let mut row: usize = 0;
        while row < 9
            invariant
                row <= 9,
                col < 9,
                self.wf(),
                cells@ =~= col_cells(self@, col as int).take(row as int),
            decreases 9 - row,
        {
            assert(self@[row as int][col as int] == self.grid@[row as int]@[col as int]);
            cells.push(self.grid[row][col]);
            row = row + 1;
        }
        assert(cells@ =~= col_cells(self@, col as int));
        has_no_repeat(&cells)
    }

    /// Whether the 3×3 box whose top-left cell is `(start_row, start_col)`
    /// assigns no digit twice.
    pub fn is_subgrid_valid(&self, start_row: usize, start_col: usize) -> (r: bool)
        requires
            self.wf(),
            start_row < 9,
            start_col < 9,
            start_row % 3 == 0,
            start_col % 3 == 0,
        ensures
            r == no_repeat(box_cells(self@, start_row as int / 3, start_col as int / 3)),
    {
        let ghost unit = box_cells(self@, start_row as int / 3, start_col as int / 3);
        let mut cells: Vec<Cell> = Vec::new();
        let mut k: usize = 0;
        while k < 9
            invariant
                k <= 9,
                start_row < 9,
                start_col < 9,
                start_row % 3 == 0,
                start_col % 3 == 0,
                self.wf(),
                unit == box_cells(self@, start_row as int / 3, start_col as int / 3),
                cells@ =~= unit.take(k as int),
            decreases 9 - k,
        {
            let r = start_row + k / 3;
            let c = start_col + k % 3;
            assert(unit[k as int] == self@[r as int][c as int]);
            assert(self@[r as int][c as int] == self.grid@[r as int]@[c as int]);
            cells.push(self.grid[r][c]);
            k = k + 1;
        }
        assert(cells@ =~= unit);
        has_no_repeat(&cells)
    }

    /// The first unit found in conflict (rows and columns in step, then the
    /// boxes), or `Ok` when no digit is assigned twice in any unit.
    pub fn validate(&self) -> (r: Result<(), Conflict>)
        requires
            self.wf(),
        ensures
            r == validation(self@),
            (r is Ok) == consistent(self@),
            r matches Err(u) ==> has_repeat(self@, u),
    {
        proof {
            lemma_validation_matches_rules(self@);
        }
        let mut i: usize = 0;
        while i < 9
            invariant
                i <= 9,
                self.wf(),
                validation(self@) == lines_from(self@, i as int),
            decreases 9 - i,
        {
            if !self.is_row_valid(i) {
                return Err(Conflict::Row(i));
            }
            if !self.is_col_valid(i) {
                return Err(Conflict::Column(i));
            }
            i = i + 1;
        }
        let mut k: usize = 0;
        while k < 9
            invariant
                k <= 9,
                self.wf(),
                validation(self@) == boxes_from(self@, k as int),
            decreases 9 - k,
        {
            if !self.is_subgrid_valid(k / 3 * 3, k % 3 * 3) {
                return Err(Conflict::Box(k / 3, k % 3));
            }
            k = k + 1;
        }
        Ok(())
    }
}

impl Default for SudokuSolver {
    fn default() -> (s: Self)
        ensures
            s.wf(),
            s@ == empty_board(),
            !s.popup_shown(),
            !s.error_flag(),
    {
        SudokuSolver::new()
    }
}

/// Nine rows of nine unassigned cells.
fn empty_grid() -> (grid: Vec<Vec<Cell>>)
    ensures
        grid@.map_values(|row: Vec<Cell>| row@) == empty_board(),
{
    let mut grid: Vec<Vec<Cell>> = Vec::new();
    let mut r: usize = 0;
    while r < 9
        invariant
            r <= 9,
            grid.len() == r,
            forall|i: int| 0 <= i < r ==> #[trigger] grid@[i]@ == Seq::new(9, |j: int| Cell::Empty),
        decreases 9 - r,
    {
        grid.push(vec![Cell::Empty; 9]);
        r = r + 1;
    }
    assert(grid@.map_values(|row: Vec<Cell>| row@) =~= empty_board());
    grid
}

/// Whether no digit occurs twice among the cells.
fn has_no_repeat(cells: &Vec<Cell>) -> (r: bool)
    requires
        forall|i: int| 0 <= i < cells.len() ==> (#[trigger] cells@[i]).valid(),
    ensures
        r == no_repeat(cells@),
{
    let mut seen: Vec<bool> = vec![false; 9];
    let mut i: usize = 0;
    while i < cells.len()
        invariant
            i <= cells.len(),
            seen.len() == 9,
            forall|k: int| 0 <= k < cells.len() ==> (#[trigger] cells@[k]).valid(),
            forall|d: int| 1 <= d <= 9 ==> (#[trigger] seen@[d - 1] <==> exists|k: int|
                0 <= k < i && #[trigger] cells@[k] == Cell::Digit(d as u8)),
            forall|a: int, b: int| 0 <= a < i && 0 <= b < i && a != b
                ==> !clash(#[trigger] cells@[a], #[trigger] cells@[b]),
        decreases cells.len() - i,
    {
        match cells[i] {
            Cell::Empty => {},
            Cell::Digit(d) => {
                if seen[(d - 1) as usize] {
                    proof {
                        let k = choose|k: int| 0 <= k < i && #[trigger] cells@[k] == Cell::Digit(d);
                        assert(clash(cells@[k], cells@[i as int]));
                    }
                    return false;
                }
                seen.set((d - 1) as usize, true);
            },
        }
        i = i + 1;
    }
    true
}

} // verus!
