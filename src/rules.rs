//! The mathematical model of a board and of the Sudoku rules over it.
use vstd::prelude::*;
use vstd::set_lib::{lemma_int_range, lemma_map_size, lemma_subset_equality, set_int_range};
use crate::cell::{Cell, Conflict};

verus! {

/// A board as a matrix of cells, row-major.
pub type Grid = Seq<Seq<Cell>>;

/// The board is 9×9 and every cell is unassigned or holds a digit in `1..=9`.
pub open spec fn well_formed(g: Grid) -> bool {
    &&& g.len() == 9
    &&& forall|r: int| 0 <= r < 9 ==> #[trigger] g[r].len() == 9
    &&& forall|r: int, c: int| 0 <= r < 9 && 0 <= c < 9 ==> #[trigger] g[r][c].valid()
}

/// The board with every cell unassigned.
pub open spec fn empty_board() -> Grid {
    Seq::new(9, |r: int| Seq::new(9, |c: int| Cell::Empty))
}

/// A clue names a cell of the board and a digit in `1..=9`.
pub open spec fn clue_in_range(clue: (usize, usize, u8)) -> bool {
    clue.0 < 9 && clue.1 < 9 && 1 <= clue.2 <= 9
}

/// The empty board with the clues written in order; a later clue for the
/// same cell overwrites an earlier one.
pub open spec fn load_board(clues: Seq<(usize, usize, u8)>) -> Grid
    decreases clues.len(),
{
    if clues.len() == 0 {
        empty_board()
    } else {
        let (r, c, d) = clues.last();
        place(load_board(clues.drop_last()), r as int, c as int, d)
    }
}

/// Two cells hold the same assigned digit.
pub open spec fn clash(a: Cell, b: Cell) -> bool {
    a is Digit && a == b
}

/// Positions `(r1, c1)` and `(r2, c2)` share a row, a column or a 3×3 box.
pub open spec fn same_unit(r1: int, c1: int, r2: int, c2: int) -> bool {
    r1 == r2 || c1 == c2 || (r1 / 3 == r2 / 3 && c1 / 3 == c2 / 3)
}

/// No digit is assigned twice within any row, column or box.
pub open spec fn consistent(g: Grid) -> bool {
    forall|r1: int, c1: int, r2: int, c2: int|
        0 <= r1 < 9 && 0 <= c1 < 9 && 0 <= r2 < 9 && 0 <= c2 < 9 && (r1 != r2 || c1 != c2)
            && same_unit(r1, c1, r2, c2) ==> !clash(#[trigger] g[r1][c1], #[trigger] g[r2][c2])
}

/// Every cell holds a digit.
pub open spec fn complete(g: Grid) -> bool {
    forall|r: int, c: int| 0 <= r < 9 && 0 <= c < 9 ==> #[trigger] g[r][c] is Digit
}

/// `s` keeps every digit that `g` assigns.
pub open spec fn extends(g: Grid, s: Grid) -> bool {
    forall|r: int, c: int|
        0 <= r < 9 && 0 <= c < 9 && (#[trigger] g[r][c]) is Digit ==> s[r][c] == g[r][c]
}

/// `s` is a completed, rule-abiding board that keeps the clues of `g`.
pub open spec fn is_solution_of(g: Grid, s: Grid) -> bool {
    well_formed(s) && complete(s) && consistent(s) && extends(g, s)
}

/// The digit a cell holds, or 0 for an unassigned cell.
pub open spec fn digit_of(c: Cell) -> int {
    match c {
        Cell::Empty => 0,
        Cell::Digit(d) => d as int,
    }
}

/// `a` equals `b`, or at the first position in row-major order where they
/// differ `a` holds the smaller digit.
pub open spec fn lex_first(a: Grid, b: Grid) -> bool {
    (forall|r: int, c: int| 0 <= r < 9 && 0 <= c < 9 ==> #[trigger] a[r][c] == b[r][c])
    || exists|r: int, c: int|
        0 <= r < 9 && 0 <= c < 9 && digit_of(#[trigger] a[r][c]) < digit_of(#[trigger] b[r][c])
            && forall|r2: int, c2: int| 0 <= r2 < 9 && 0 <= c2 < 9 && r2 * 9 + c2 < r * 9 + c
                ==> #[trigger] a[r2][c2] == b[r2][c2]
}

/// Some completion of `g` obeys the rules.
pub open spec fn solvable(g: Grid) -> bool {
    exists|s: Grid| #[trigger] is_solution_of(g, s)
}

/// Every cell before position `k` in row-major order holds a digit.
pub open spec fn filled_before(g: Grid, k: int) -> bool {
    forall|r: int, c: int| 0 <= r < 9 && 0 <= c < 9 && r * 9 + c < k ==> #[trigger] g[r][c] is Digit
}

/// Digit `d` appears nowhere in the row, column or box of `(r, c)`.
pub open spec fn placeable(g: Grid, r: int, c: int, d: u8) -> bool {
    forall|r2: int, c2: int|
        0 <= r2 < 9 && 0 <= c2 < 9 && same_unit(r, c, r2, c2) ==> #[trigger] g[r2][c2] != Cell::Digit(d)
}

/// `g` with digit `d` written at `(r, c)`.
pub open spec fn place(g: Grid, r: int, c: int, d: u8) -> Grid {
    g.update(r, g[r].update(c, Cell::Digit(d)))
}

/// No digit occurs twice in the sequence of cells.
pub open spec fn no_repeat(s: Seq<Cell>) -> bool {
    forall|i: int, j: int| 0 <= i < s.len() && 0 <= j < s.len() && i != j ==> !clash(#[trigger] s[i], #[trigger] s[j])
}

/// The cells of column `c`, top to bottom.
pub open spec fn col_cells(g: Grid, c: int) -> Seq<Cell> {
    Seq::new(9, |i: int| g[i][c])
}

/// The cells of box `(br, bc)`, row-major.
pub open spec fn box_cells(g: Grid, br: int, bc: int) -> Seq<Cell> {
    Seq::new(9, |i: int| g[3 * br + i / 3][3 * bc + i % 3])
}

/// Row `i` and column `i` each assign no digit twice.
pub open spec fn line_ok(g: Grid, i: int) -> bool {
    no_repeat(g[i]) && no_repeat(col_cells(g, i))
}

/// The unit that a conflict names has a repeated digit.
pub open spec fn has_repeat(g: Grid, u: Conflict) -> bool {
    match u {
        Conflict::Row(r) => !no_repeat(g[r as int]),
        Conflict::Column(c) => !no_repeat(col_cells(g, c as int)),
        Conflict::Box(br, bc) => !no_repeat(box_cells(g, br as int, bc as int)),
    }
}

/// The first unit found in conflict, checking row `i` then column `i` for
/// `i` from 0 to 8, then the boxes in row-major order.
pub open spec fn validation(g: Grid) -> Result<(), Conflict> {
    lines_from(g, 0)
}

pub open spec fn lines_from(g: Grid, i: int) -> Result<(), Conflict>
    decreases 9 - i,
{
    if i >= 9 {
        boxes_from(g, 0)
    } else if !no_repeat(g[i]) {
        Err(Conflict::Row(i as usize))
    } else if !no_repeat(col_cells(g, i)) {
        Err(Conflict::Column(i as usize))
    } else {
        lines_from(g, i + 1)
    }
}

pub open spec fn boxes_from(g: Grid, k: int) -> Result<(), Conflict>
    decreases 9 - k,
{
    if k >= 9 {
        Ok(())
    } else if !no_repeat(box_cells(g, k / 3, k % 3)) {
        Err(Conflict::Box((k / 3) as usize, (k % 3) as usize))
    } else {
        boxes_from(g, k + 1)
    }
}

/// Writing a digit that is placeable into an unassigned cell keeps a
/// consistent board consistent, and keeps every clue.
pub proof fn lemma_place_keeps_rules(g: Grid, r: int, c: int, d: u8)
    requires
        well_formed(g),
        consistent(g),
        0 <= r < 9,
        0 <= c < 9,
        1 <= d <= 9,
        g[r][c] is Empty,
        placeable(g, r, c, d),
    ensures
        well_formed(place(g, r, c, d)),
        consistent(place(g, r, c, d)),
        extends(g, place(g, r, c, d)),
        place(g, r, c, d)[r][c] == Cell::Digit(d),
{
    let h = place(g, r, c, d);
    assert forall|r1: int, c1: int, r2: int, c2: int|
        0 <= r1 < 9 && 0 <= c1 < 9 && 0 <= r2 < 9 && 0 <= c2 < 9 && (r1 != r2 || c1 != c2)
            && same_unit(r1, c1, r2, c2) implies !clash(#[trigger] h[r1][c1], #[trigger] h[r2][c2]) by {
        assert(g[r1][c1] == g[r1][c1]);
        assert(g[r2][c2] == g[r2][c2]);
        if r1 == r && c1 == c {
            assert(h[r2][c2] == g[r2][c2]);
        } else if r2 == r && c2 == c {
            assert(h[r1][c1] == g[r1][c1]);
            assert(same_unit(r2, c2, r1, c1));
        } else {
            assert(h[r1][c1] == g[r1][c1]);
            assert(h[r2][c2] == g[r2][c2]);
        }
    }
}

/// Every solution of `g` that puts `d` at an unassigned cell `(r, c)` shows
/// that `d` is placeable there, and is a solution of `g` with `d` written there.
pub proof fn lemma_solution_through(g: Grid, s: Grid, r: int, c: int, d: u8)
    requires
        well_formed(g),
        is_solution_of(g, s),
        0 <= r < 9,
        0 <= c < 9,
        g[r][c] is Empty,
        s[r][c] == Cell::Digit(d),
    ensures
        placeable(g, r, c, d),
        is_solution_of(place(g, r, c, d), s),
{
    assert forall|r2: int, c2: int|
        0 <= r2 < 9 && 0 <= c2 < 9 && same_unit(r, c, r2, c2) implies #[trigger] g[r2][c2] != Cell::Digit(d) by {
        if g[r2][c2] == Cell::Digit(d) {
            assert(s[r2][c2] == Cell::Digit(d));
            assert(!clash(s[r][c], s[r2][c2]));
        }
    }
    let h = place(g, r, c, d);
    assert forall|r1: int, c1: int|
        0 <= r1 < 9 && 0 <= c1 < 9 && (#[trigger] h[r1][c1]) is Digit implies s[r1][c1] == h[r1][c1] by {
        assert(g[r1][c1] == g[r1][c1]);
    }
}

/// A solution of a board with a digit written in is a solution of the board.
pub proof fn lemma_solution_of_placed(g: Grid, s: Grid, r: int, c: int, d: u8)
    requires
        well_formed(g),
        0 <= r < 9,
        0 <= c < 9,
        g[r][c] is Empty,
        is_solution_of(place(g, r, c, d), s),
    ensures
        is_solution_of(g, s),
{
    let h = place(g, r, c, d);
    assert forall|r1: int, c1: int|
        0 <= r1 < 9 && 0 <= c1 < 9 && (#[trigger] g[r1][c1]) is Digit implies s[r1][c1] == g[r1][c1] by {
        assert(h[r1][c1] == g[r1][c1]);
    }
}

/// Every row, column and box is free of repeats exactly when the board is consistent.
pub proof fn lemma_units_iff_consistent(g: Grid)
    requires
        well_formed(g),
    ensures
        consistent(g) <==> (forall|i: int| 0 <= i < 9 ==> #[trigger] line_ok(g, i))
            && (forall|k: int| 0 <= k < 9 ==> #[trigger] no_repeat(box_cells(g, k / 3, k % 3))),
{
    if consistent(g) {
        assert forall|i: int| 0 <= i < 9 implies #[trigger] line_ok(g, i) by {
            assert forall|a: int, b: int| 0 <= a < g[i].len() && 0 <= b < g[i].len() && a != b
                implies !clash(#[trigger] g[i][a], #[trigger] g[i][b]) by {
                assert(same_unit(i, a, i, b));
            }
            let col = col_cells(g, i);
            assert forall|a: int, b: int| 0 <= a < col.len() && 0 <= b < col.len() && a != b
                implies !clash(#[trigger] col[a], #[trigger] col[b]) by {
                assert(same_unit(a, i, b, i));
                assert(col[a] == g[a][i] && col[b] == g[b][i]);
            }
        }
        assert forall|k: int| 0 <= k < 9 implies #[trigger] no_repeat(box_cells(g, k / 3, k % 3)) by {
            let bx = box_cells(g, k / 3, k % 3);
            assert forall|a: int, b: int| 0 <= a < bx.len() && 0 <= b < bx.len() && a != b
                implies !clash(#[trigger] bx[a], #[trigger] bx[b]) by {
                let (r1, c1) = (3 * (k / 3) + a / 3, 3 * (k % 3) + a % 3);
                let (r2, c2) = (3 * (k / 3) + b / 3, 3 * (k % 3) + b % 3);
                assert(same_unit(r1, c1, r2, c2));
                assert(bx[a] == g[r1][c1] && bx[b] == g[r2][c2]);
            }
        }
    }
    if (forall|i: int| 0 <= i < 9 ==> #[trigger] line_ok(g, i))
        && (forall|k: int| 0 <= k < 9 ==> #[trigger] no_repeat(box_cells(g, k / 3, k % 3))) {
        assert forall|r1: int, c1: int, r2: int, c2: int|
            0 <= r1 < 9 && 0 <= c1 < 9 && 0 <= r2 < 9 && 0 <= c2 < 9 && (r1 != r2 || c1 != c2)
                && same_unit(r1, c1, r2, c2) implies !clash(#[trigger] g[r1][c1], #[trigger] g[r2][c2]) by {
            if r1 == r2 {
                assert(line_ok(g, r1));
            } else if c1 == c2 {
                assert(line_ok(g, c1));
                let col = col_cells(g, c1);
                assert(no_repeat(col));
                assert(col[r1] == g[r1][c1] && col[r2] == g[r2][c2]);
            } else {
                let k = 3 * (r1 / 3) + c1 / 3;
                assert(k / 3 == r1 / 3 && k % 3 == c1 / 3);
                let bx = box_cells(g, k / 3, k % 3);
                assert(no_repeat(bx));
                let a = 3 * (r1 % 3) + c1 % 3;
                let b = 3 * (r2 % 3) + c2 % 3;
                assert(a / 3 == r1 % 3 && a % 3 == c1 % 3);
                assert(b / 3 == r2 % 3 && b % 3 == c2 % 3);
                assert(bx[a] == g[r1][c1]);
                assert(bx[b] == g[r2][c2]);
            }
        }
    }
}

proof fn lemma_boxes_from(g: Grid, k: int)
    requires
        0 <= k <= 9,
    ensures
        (boxes_from(g, k) is Ok) <==> (forall|k2: int| k <= k2 < 9 ==> #[trigger] no_repeat(box_cells(g, k2 / 3, k2 % 3))),
        boxes_from(g, k) is Err ==> has_repeat(g, boxes_from(g, k)->Err_0),
    decreases 9 - k,
{
    if k < 9 {
        lemma_boxes_from(g, k + 1);
    }
}

proof fn lemma_lines_from(g: Grid, i: int)
    requires
        0 <= i <= 9,
    ensures
        (lines_from(g, i) is Ok) <==> (forall|i2: int| i <= i2 < 9 ==> #[trigger] line_ok(g, i2))
            && boxes_from(g, 0) is Ok,
        lines_from(g, i) is Err ==> has_repeat(g, lines_from(g, i)->Err_0),
    decreases 9 - i,
{
    if i < 9 {
        lemma_lines_from(g, i + 1);
        assert(line_ok(g, i) == (no_repeat(g[i]) && no_repeat(col_cells(g, i))));
    } else {
        lemma_boxes_from(g, 0);
    }
}

/// Validation succeeds exactly on the boards where no row, column or box
/// assigns a digit twice; a reported conflict names a unit that does.
pub proof fn lemma_validation_matches_rules(g: Grid)
    requires
        well_formed(g),
    ensures
        (validation(g) is Ok) <==> consistent(g),
        validation(g) is Err ==> has_repeat(g, validation(g)->Err_0),
{
    lemma_lines_from(g, 0);
    lemma_boxes_from(g, 0);
    lemma_units_iff_consistent(g);
}

/// A board that has a solution is consistent, so validation accepts it.
pub proof fn lemma_solvable_is_valid(g: Grid)
    requires
        well_formed(g),
        solvable(g),
    ensures
        consistent(g),
        validation(g) is Ok,
{
    let s = choose|s: Grid| #[trigger] is_solution_of(g, s);
    assert forall|r1: int, c1: int, r2: int, c2: int|
        0 <= r1 < 9 && 0 <= c1 < 9 && 0 <= r2 < 9 && 0 <= c2 < 9 && (r1 != r2 || c1 != c2)
            && same_unit(r1, c1, r2, c2) implies !clash(#[trigger] g[r1][c1], #[trigger] g[r2][c2]) by {
        if clash(g[r1][c1], g[r2][c2]) {
            assert(s[r1][c1] == g[r1][c1]);
            assert(s[r2][c2] == g[r2][c2]);
            assert(!clash(s[r1][c1], s[r2][c2]));
        }
    }
    lemma_validation_matches_rules(g);
}

/// A sequence of nine cells that holds each digit 1 to 9 exactly once.
pub open spec fn is_digit_permutation(u: Seq<Cell>) -> bool {
    &&& u.len() == 9
    &&& no_repeat(u)
    &&& forall|d: u8| 1 <= d <= 9 ==> #[trigger] u.contains(Cell::Digit(d))
}

/// Nine valid digits, none repeated, are the digits 1 to 9.
proof fn lemma_nine_distinct_digits(u: Seq<Cell>)
    requires
        u.len() == 9,
        no_repeat(u),
        forall|k: int| 0 <= k < 9 ==> (#[trigger] u[k]) is Digit && u[k].valid(),
    ensures
        is_digit_permutation(u),
{
    let x = set_int_range(0, 9);
    let f = |k: int| (u[k]->Digit_0) as int;
    lemma_int_range(0, 9);
    lemma_int_range(1, 10);
    assert forall|a: int, b: int| x.contains(a) && x.contains(b) && #[trigger] f(a) == #[trigger] f(b) implies a == b by {
        assert(u[a] == u[b]);
    }
    let y = x.map(f);
    lemma_map_size(x, y, f);
    assert forall|v: int| y.contains(v) implies set_int_range(1, 10).contains(v) by {
        let k = choose|k: int| x.contains(k) && f(k) == v;
        assert(u[k].valid());
    }
    lemma_subset_equality(y, set_int_range(1, 10));
    assert forall|d: u8| 1 <= d <= 9 implies #[trigger] u.contains(Cell::Digit(d)) by {
        assert(set_int_range(1, 10).contains(d as int));
        assert(y.contains(d as int));
        let k = choose|k: int| x.contains(k) && f(k) == d as int;
        assert(u[k] == Cell::Digit(d));
    }
}

/// In a completed, consistent board every row, every column and every box
/// holds each digit 1 to 9 exactly once.
pub proof fn lemma_solution_units_are_permutations(s: Grid)
    requires
        well_formed(s),
        complete(s),
        consistent(s),
    ensures
        forall|i: int| 0 <= i < 9 ==> is_digit_permutation(#[trigger] s[i]),
        forall|i: int| 0 <= i < 9 ==> is_digit_permutation(#[trigger] col_cells(s, i)),
        forall|br: int, bc: int| 0 <= br < 3 && 0 <= bc < 3 ==> is_digit_permutation(#[trigger] box_cells(s, br, bc)),
{
    lemma_units_iff_consistent(s);
    assert forall|i: int| 0 <= i < 9 implies is_digit_permutation(#[trigger] s[i]) by {
        assert(line_ok(s, i));
        assert forall|k: int| 0 <= k < 9 implies (#[trigger] s[i][k]) is Digit && s[i][k].valid() by {}
        lemma_nine_distinct_digits(s[i]);
    }
    assert forall|i: int| 0 <= i < 9 implies is_digit_permutation(#[trigger] col_cells(s, i)) by {
        assert(line_ok(s, i));
        let u = col_cells(s, i);
        assert forall|k: int| 0 <= k < 9 implies (#[trigger] u[k]) is Digit && u[k].valid() by {
            assert(u[k] == s[k][i]);
        }
        lemma_nine_distinct_digits(u);
    }
    assert forall|br: int, bc: int| 0 <= br < 3 && 0 <= bc < 3 implies is_digit_permutation(#[trigger] box_cells(s, br, bc)) by {
        let k0 = 3 * br + bc;
        assert(k0 / 3 == br && k0 % 3 == bc);
        assert(no_repeat(box_cells(s, k0 / 3, k0 % 3)));
        let u = box_cells(s, br, bc);
        assert forall|k: int| 0 <= k < 9 implies (#[trigger] u[k]) is Digit && u[k].valid() by {
            assert(u[k] == s[3 * br + k / 3][3 * bc + k % 3]);
        }
        lemma_nine_distinct_digits(u);
    }
}

/// The digit, less one, that the shifted-rows pattern puts at `(r, c)`.
spec fn pattern_value(r: int, c: int) -> int {
    (3 * (r % 3) + r / 3 + c) % 9
}

/// A completed board: each row is the one above shifted by three, and each
/// band of three rows by one more.
spec fn pattern_board() -> Grid {
    Seq::new(9, |r: int| Seq::new(9, |c: int| Cell::Digit((pattern_value(r, c) + 1) as u8)))
}

proof fn lemma_shift_distinct(a: int, b: int, base: int)
    requires
        0 <= a < 9,
        0 <= b < 9,
        0 <= base < 9,
        a != b,
    ensures
        (a + base) % 9 != (b + base) % 9,
{
    assert(a + base < 18 && b + base < 18);
    assert((a + base) % 9 == if a + base < 9 { a + base } else { a + base - 9 });
    assert((b + base) % 9 == if b + base < 9 { b + base } else { b + base - 9 });
}

proof fn lemma_split3(x: int)
    requires
        0 <= x < 9,
    ensures
        x == 3 * (x / 3) + x % 3,
        0 <= x / 3 < 3,
        0 <= x % 3 < 3,
{
}

proof fn lemma_pattern_distinct(r1: int, c1: int, r2: int, c2: int)
    requires
        0 <= r1 < 9,
        0 <= c1 < 9,
        0 <= r2 < 9,
        0 <= c2 < 9,
        r1 != r2 || c1 != c2,
        same_unit(r1, c1, r2, c2),
    ensures
        pattern_value(r1, c1) != pattern_value(r2, c2),
{
    lemma_split3(r1);
    lemma_split3(r2);
    lemma_split3(c1);
    lemma_split3(c2);
    let o1 = 3 * (r1 % 3) + r1 / 3;
    let o2 = 3 * (r2 % 3) + r2 / 3;
    if r1 == r2 {
        lemma_shift_distinct(c1, c2, o1);
    } else if c1 == c2 {
        lemma_shift_distinct(o1, o2, c1);
    } else {
        let b1 = 3 * (r1 % 3) + c1 % 3;
        let b2 = 3 * (r2 % 3) + c2 % 3;
        let base = r1 / 3 + 3 * (c1 / 3);
        lemma_shift_distinct(b1, b2, base);
        assert(o1 + c1 == b1 + base);
        assert(o2 + c2 == b2 + base);
    }
}

/// The board with no digit assigned has a solution.
pub proof fn lemma_empty_board_solvable()
    ensures
        solvable(empty_board()),
{
    let s = pattern_board();
    assert forall|r: int, c: int| 0 <= r < 9 && 0 <= c < 9 implies #[trigger] s[r][c].valid() by {
        assert(0 <= pattern_value(r, c) < 9);
    }
    assert forall|r1: int, c1: int, r2: int, c2: int|
        0 <= r1 < 9 && 0 <= c1 < 9 && 0 <= r2 < 9 && 0 <= c2 < 9 && (r1 != r2 || c1 != c2)
            && same_unit(r1, c1, r2, c2) implies !clash(#[trigger] s[r1][c1], #[trigger] s[r2][c2]) by {
        lemma_pattern_distinct(r1, c1, r2, c2);
        assert(0 <= pattern_value(r1, c1) < 9 && 0 <= pattern_value(r2, c2) < 9);
    }
    assert(is_solution_of(empty_board(), s));
}

/// Solving a board with no digit assigned succeeds, and every row, column
/// and box of the board it yields holds each digit 1 to 9 exactly once.
pub proof fn lemma_empty_board_solution(s: Grid)
    requires
        is_solution_of(empty_board(), s),
    ensures
        solvable(empty_board()),
        forall|i: int| 0 <= i < 9 ==> is_digit_permutation(#[trigger] s[i]),
        forall|i: int| 0 <= i < 9 ==> is_digit_permutation(#[trigger] col_cells(s, i)),
        forall|br: int, bc: int| 0 <= br < 3 && 0 <= bc < 3 ==> is_digit_permutation(#[trigger] box_cells(s, br, bc)),
{
    lemma_empty_board_solvable();
    lemma_solution_units_are_permutations(s);
}

} // verus!
