//! The Sudoku board as a grid of cells: its groups and its energy.
//!
//! Rows are not part of the energy. The searches only ever swap two cells of
//! one row, so a row that starts as a permutation of the digits stays one.
use vstd::prelude::*;

verus! {

/// A board as the contracts see it: rows of cells.
pub type Grid = Seq<Seq<u8>>;

/// The grid that a board holds.
pub open spec fn grid_of(board: [[u8; 9]; 9]) -> Grid {
    Seq::new(9, |r: int| board[r]@)
}

/// Nine rows of nine cells.
pub open spec fn is_grid(grid: Grid) -> bool {
    grid.len() == 9 && forall|r: int| 0 <= r < 9 ==> (#[trigger] grid[r]).len() == 9
}

/// Whether `value` is one of the digits 1 to 9.
pub open spec fn is_digit(value: u8) -> bool {
    1 <= value <= 9
}

/// Whether every cell holds a digit.
pub open spec fn all_digits(grid: Grid) -> bool {
    forall|r: int, c: int| 0 <= r < 9 && 0 <= c < 9 ==> is_digit(#[trigger] grid[r][c])
}

/// Whether no cell holds more than 9. Zero may stand for an empty cell.
pub open spec fn countable(grid: Grid) -> bool {
    forall|r: int, c: int| 0 <= r < 9 && 0 <= c < 9 ==> #[trigger] grid[r][c] <= 9
}

/// Nine cells that hold the nine digits, each once.
pub open spec fn is_permutation(cells: Seq<u8>) -> bool {
    &&& cells.len() == 9
    &&& forall|i: int| 0 <= i < 9 ==> is_digit(#[trigger] cells[i])
    &&& cells.no_duplicates()
}

/// Whether every row is a permutation of the digits.
pub open spec fn rows_are_permutations(grid: Grid) -> bool {
    grid.len() == 9 && forall|r: int| 0 <= r < 9 ==> is_permutation(#[trigger] grid[r])
}

/// The cells of column `c`, from the top.
pub open spec fn column(grid: Grid, c: int) -> Seq<u8> {
    Seq::new(9, |r: int| grid[r][c])
}

/// The cells of box `b`, row by row. The boxes are numbered row by row too.
pub open spec fn block(grid: Grid, b: int) -> Seq<u8> {
    Seq::new(9, |k: int| grid[3 * (b / 3) + k / 3][3 * (b % 3) + k % 3])
}

/// How often `digit` occurs in `cells`.
pub open spec fn occurrences(cells: Seq<u8>, digit: u8) -> nat
    decreases cells.len(),
{
    if cells.len() == 0 {
        0
    } else {
        occurrences(cells.drop_last(), digit) + if cells.last() == digit {
            1nat
        } else {
            0nat
        }
    }
}

/// What `digit` adds to the energy of a group: one for every occurrence
/// after the first.
pub open spec fn surplus(cells: Seq<u8>, digit: u8) -> nat {
    if occurrences(cells, digit) > 1 {
        (occurrences(cells, digit) - 1) as nat
    } else {
        0
    }
}

/// The surplus of the digits `1..=upto`, added up.
pub open spec fn group_energy_upto(cells: Seq<u8>, upto: int) -> nat
    decreases upto,
{
    if upto <= 0 {
        0
    } else {
        group_energy_upto(cells, upto - 1) + surplus(cells, upto as u8)
    }
}

/// The energy of one group of cells.
pub open spec fn group_energy(cells: Seq<u8>) -> nat {
    group_energy_upto(cells, 9)
}

/// The energy of the first `columns` columns.
pub open spec fn column_energy_upto(grid: Grid, columns: int) -> nat
    decreases columns,
{
    if columns <= 0 {
        0
    } else {
        column_energy_upto(grid, columns - 1) + group_energy(column(grid, columns - 1))
    }
}

/// The energy of the first `boxes` boxes.
pub open spec fn box_energy_upto(grid: Grid, boxes: int) -> nat
    decreases boxes,
{
    if boxes <= 0 {
        0
    } else {
        box_energy_upto(grid, boxes - 1) + group_energy(block(grid, boxes - 1))
    }
}

/// The energy of the columns.
pub open spec fn column_energy(grid: Grid) -> nat {
    column_energy_upto(grid, 9)
}

/// The energy of the boxes.
pub open spec fn box_energy(grid: Grid) -> nat {
    box_energy_upto(grid, 9)
}

/// The energy of a grid: what its columns and its boxes hold too often.
pub open spec fn energy_of(grid: Grid) -> nat {
    column_energy(grid) + box_energy(grid)
}

/// Whether `cells` holds each digit exactly once.
pub open spec fn each_digit_once(cells: Seq<u8>) -> bool {
    forall|digit: u8| is_digit(digit) ==> occurrences(cells, digit) == 1
}

/// Whether every row, every column and every box is a permutation of the
/// digits.
pub open spec fn solved(grid: Grid) -> bool {
    &&& rows_are_permutations(grid)
    &&& forall|c: int| 0 <= c < 9 ==> is_permutation(#[trigger] column(grid, c))
    &&& forall|b: int| 0 <= b < 9 ==> is_permutation(#[trigger] block(grid, b))
}

/// Whether `(r, c)` and `(r2, c2)` are two cells of one column or of one box.
pub open spec fn share_group(r: int, c: int, r2: int, c2: int) -> bool {
    (r != r2 || c != c2) && (c == c2 || (r / 3 == r2 / 3 && c / 3 == c2 / 3))
}

/// Whether the value of cell `(r, c)` stands a second time in its column or
/// in its box.
pub open spec fn clashes(grid: Grid, r: int, c: int) -> bool {
    exists|r2: int, c2: int|
        0 <= r2 < 9 && 0 <= c2 < 9 && share_group(r, c, r2, c2) && #[trigger] grid[r2][c2]
            == grid[r][c]
}

/// Whether every column and every box holds each digit exactly once.
pub open spec fn complete(grid: Grid) -> bool {
    &&& forall|c: int| 0 <= c < 9 ==> each_digit_once(#[trigger] column(grid, c))
    &&& forall|b: int| 0 <= b < 9 ==> each_digit_once(#[trigger] block(grid, b))
}

/// A digit occurs at most as often as there are cells.
pub proof fn lemma_occurrences_bound(cells: Seq<u8>, digit: u8)
    ensures
        occurrences(cells, digit) <= cells.len(),
    decreases cells.len(),
{
    if cells.len() > 0 {
        lemma_occurrences_bound(cells.drop_last(), digit);
    }
}

/// A digit is counted at least once exactly when it is one of the cells.
pub proof fn lemma_occurrences_contains(cells: Seq<u8>, digit: u8)
    ensures
        occurrences(cells, digit) > 0 <==> cells.contains(digit),
    decreases cells.len(),
{
    if cells.len() > 0 {
        let front: Seq<u8> = cells.drop_last();
        lemma_occurrences_contains(front, digit);
        if cells.contains(digit) {
            let i: int = choose|i: int| 0 <= i < cells.len() && cells[i] == digit;
            if i < front.len() {
                assert(front[i] == digit);
            }
        }
        if front.contains(digit) {
            let i: int = choose|i: int| 0 <= i < front.len() && front[i] == digit;
            assert(cells[i] == digit);
        }
        if cells.last() == digit {
            assert(cells[cells.len() - 1] == digit);
        }
    }
}

/// No digit occurs twice exactly when the cells are all different.
pub proof fn lemma_occurrences_distinct(cells: Seq<u8>)
    ensures
        cells.no_duplicates() <==> forall|digit: u8| occurrences(cells, digit) <= 1,
    decreases cells.len(),
{
    if cells.len() > 0 {
        let front: Seq<u8> = cells.drop_last();
        let last: u8 = cells.last();
        lemma_occurrences_distinct(front);
        lemma_occurrences_contains(front, last);
        if cells.no_duplicates() {
            assert(front.no_duplicates());
            if front.contains(last) {
                let i: int = choose|i: int| 0 <= i < front.len() && front[i] == last;
                assert(cells[i] == cells[cells.len() - 1]);
            }
            assert forall|digit: u8| occurrences(cells, digit) <= 1 by {
                assert(occurrences(front, digit) <= 1);
            }
        }
        if forall|digit: u8| occurrences(cells, digit) <= 1 {
            assert forall|digit: u8| occurrences(front, digit) <= 1 by {
                assert(occurrences(cells, digit) <= 1);
            }
            assert(occurrences(cells, last) <= 1);
            assert(!front.contains(last));
            assert forall|i: int, j: int|
                0 <= i < cells.len() && 0 <= j < cells.len() && i != j implies cells[i]
                != cells[j] by {
                if i < front.len() && j < front.len() {
                    assert(front[i] != front[j]);
                } else if i < front.len() {
                    assert(front[i] == cells[i]);
                } else {
                    assert(front[j] == cells[j]);
                }
            }
        }
    }
}

/// One cell more adds one to the count of its digit and nothing to the others.
pub proof fn lemma_occurrences_next(cells: Seq<u8>, i: int, digit: u8)
    requires
        0 <= i < cells.len(),
    ensures
        occurrences(cells.take(i + 1), digit) == occurrences(cells.take(i), digit) + if cells[i]
            == digit {
            1nat
        } else {
            0nat
        },
{
    assert(cells.take(i + 1).drop_last() =~= cells.take(i));
}

proof fn lemma_group_energy_upto(cells: Seq<u8>, upto: int)
    requires
        0 <= upto <= 9,
    ensures
        group_energy_upto(cells, upto) <= upto * cells.len(),
        group_energy_upto(cells, upto) == 0 <==> forall|digit: u8|
            1 <= digit <= upto ==> occurrences(cells, digit) <= 1,
    decreases upto,
{
    if upto > 0 {
        lemma_group_energy_upto(cells, upto - 1);
        lemma_occurrences_bound(cells, upto as u8);
        assert(upto * cells.len() == (upto - 1) * cells.len() + cells.len())
            by (nonlinear_arith);
    }
}

/// How often the digits `1..=upto` occur in `cells`, added up.
pub open spec fn digit_total(cells: Seq<u8>, upto: int) -> nat
    decreases upto,
{
    if upto <= 0 {
        0
    } else {
        digit_total(cells, upto - 1) + occurrences(cells, upto as u8)
    }
}

/// How many of `cells` hold a digit.
pub open spec fn digit_cells(cells: Seq<u8>) -> nat
    decreases cells.len(),
{
    if cells.len() == 0 {
        0
    } else {
        digit_cells(cells.drop_last()) + if is_digit(cells.last()) {
            1nat
        } else {
            0nat
        }
    }
}

proof fn lemma_digit_total_next(cells: Seq<u8>, upto: int)
    requires
        cells.len() > 0,
        0 <= upto <= 9,
    ensures
        digit_total(cells, upto) == digit_total(cells.drop_last(), upto) + if 1 <= cells.last()
            <= upto {
            1nat
        } else {
            0nat
        },
    decreases upto,
{
    if upto > 0 {
        lemma_digit_total_next(cells, upto - 1);
    }
}

/// Counting digit by digit and counting cell by cell come to the same.
pub proof fn lemma_digit_total_is_digit_cells(cells: Seq<u8>)
    ensures
        digit_total(cells, 9) == digit_cells(cells),
    decreases cells.len(),
{
    if cells.len() > 0 {
        lemma_digit_total_is_digit_cells(cells.drop_last());
        lemma_digit_total_next(cells, 9);
    } else {
        reveal_with_fuel(digit_total, 10);
    }
}

/// The cells from `n` on hold at most as many digits as there are cells.
pub proof fn lemma_digit_cells_rest(cells: Seq<u8>, n: int)
    requires
        0 <= n <= cells.len(),
    ensures
        digit_cells(cells.take(n)) <= n,
        digit_cells(cells) - digit_cells(cells.take(n)) <= cells.len() - n,
        digit_cells(cells.take(n)) <= digit_cells(cells),
    decreases cells.len() - n,
{
    lemma_digit_cells_all(cells.take(n));
    if n < cells.len() {
        lemma_digit_cells_rest(cells, n + 1);
        assert(cells.take(n + 1).drop_last() =~= cells.take(n));
    } else {
        assert(cells.take(n) =~= cells);
        lemma_digit_cells_all(cells);
    }
}

proof fn lemma_digit_cells_all(cells: Seq<u8>)
    ensures
        digit_cells(cells) <= cells.len(),
        digit_cells(cells) == cells.len() <==> forall|i: int|
            0 <= i < cells.len() ==> is_digit(#[trigger] cells[i]),
    decreases cells.len(),
{
    if cells.len() > 0 {
        let front: Seq<u8> = cells.drop_last();
        lemma_digit_cells_all(front);
        if forall|i: int| 0 <= i < cells.len() ==> is_digit(#[trigger] cells[i]) {
            assert forall|i: int| 0 <= i < front.len() implies is_digit(#[trigger] front[i]) by {
                assert(front[i] == cells[i]);
            }
            assert(is_digit(cells[cells.len() - 1]));
        }
        if digit_cells(cells) == cells.len() {
            assert forall|i: int| 0 <= i < cells.len() implies is_digit(#[trigger] cells[i]) by {
                if i < front.len() {
                    assert(is_digit(front[i]));
                }
            }
        }
    }
}

proof fn lemma_digit_total(cells: Seq<u8>)
    requires
        forall|i: int| 0 <= i < cells.len() ==> is_digit(#[trigger] cells[i]),
    ensures
        digit_total(cells, 9) == cells.len(),
{
    lemma_digit_total_is_digit_cells(cells);
    lemma_digit_cells_all(cells);
}

/// Nine digits have no surplus exactly when each of the nine occurs once.
pub proof fn lemma_group_zero_iff_once(cells: Seq<u8>)
    requires
        cells.len() == 9,
        forall|i: int| 0 <= i < 9 ==> is_digit(#[trigger] cells[i]),
    ensures
        group_energy(cells) == 0 <==> each_digit_once(cells),
        each_digit_once(cells) <==> cells.no_duplicates(),
{
    lemma_group_energy_upto(cells, 9);
    lemma_digit_total(cells);
    lemma_occurrences_distinct(cells);
    let sparse: bool = forall|digit: u8| 1 <= digit <= 9 ==> occurrences(cells, digit) <= 1;
    assert(group_energy(cells) == 0 <==> sparse);
    assert forall|digit: u8| !is_digit(digit) implies occurrences(cells, digit) == 0 by {
        lemma_occurrences_contains(cells, digit);
        if cells.contains(digit) {
            let i: int = choose|i: int| 0 <= i < cells.len() && cells[i] == digit;
            assert(is_digit(cells[i]));
        }
    }
    if sparse {
        reveal_with_fuel(digit_total, 10);
        let n1: nat = occurrences(cells, 1u8);
        let n2: nat = occurrences(cells, 2u8);
        let n3: nat = occurrences(cells, 3u8);
        let n4: nat = occurrences(cells, 4u8);
        let n5: nat = occurrences(cells, 5u8);
        let n6: nat = occurrences(cells, 6u8);
        let n7: nat = occurrences(cells, 7u8);
        let n8: nat = occurrences(cells, 8u8);
        let n9: nat = occurrences(cells, 9u8);
        assert(digit_total(cells, 9) == n1 + n2 + n3 + n4 + n5 + n6 + n7 + n8 + n9);
        assert(n1 <= 1 && n2 <= 1 && n3 <= 1 && n4 <= 1 && n5 <= 1);
        assert(n6 <= 1 && n7 <= 1 && n8 <= 1 && n9 <= 1);
        assert forall|digit: u8| is_digit(digit) implies occurrences(cells, digit) == 1 by {
            assert(digit == 1 || digit == 2 || digit == 3 || digit == 4 || digit == 5 || digit
                == 6 || digit == 7 || digit == 8 || digit == 9);
        }
    }
    if each_digit_once(cells) {
        assert forall|digit: u8| occurrences(cells, digit) <= 1 by {
            if is_digit(digit) {
                assert(occurrences(cells, digit) == 1);
            }
        }
    }
}

proof fn lemma_column_energy_upto(grid: Grid, columns: int)
    requires
        0 <= columns <= 9,
    ensures
        column_energy_upto(grid, columns) <= 81 * columns,
        column_energy_upto(grid, columns) == 0 <==> forall|c: int|
            0 <= c < columns ==> group_energy(#[trigger] column(grid, c)) == 0,
    decreases columns,
{
    if columns > 0 {
        lemma_column_energy_upto(grid, columns - 1);
        lemma_group_energy_upto(column(grid, columns - 1), 9);
    }
}

proof fn lemma_box_energy_upto(grid: Grid, boxes: int)
    requires
        0 <= boxes <= 9,
    ensures
        box_energy_upto(grid, boxes) <= 81 * boxes,
        box_energy_upto(grid, boxes) == 0 <==> forall|b: int|
            0 <= b < boxes ==> group_energy(#[trigger] block(grid, b)) == 0,
    decreases boxes,
{
    if boxes > 0 {
        lemma_box_energy_upto(grid, boxes - 1);
        lemma_group_energy_upto(block(grid, boxes - 1), 9);
    }
}

/// On a grid of digits the energy is zero exactly when every column and every
/// box holds each digit once.
pub proof fn lemma_energy_zero_iff_complete(grid: Grid)
    requires
        is_grid(grid),
        all_digits(grid),
    ensures
        energy_of(grid) == 0 <==> complete(grid),
{
    lemma_column_energy_upto(grid, 9);
    lemma_box_energy_upto(grid, 9);
    assert forall|c: int| 0 <= c < 9 implies (group_energy(#[trigger] column(grid, c)) == 0
        <==> each_digit_once(column(grid, c))) by {
        lemma_group_zero_iff_once(column(grid, c));
    }
    assert forall|b: int| 0 <= b < 9 implies (group_energy(#[trigger] block(grid, b)) == 0
        <==> each_digit_once(block(grid, b))) by {
        assert forall|k: int| 0 <= k < 9 implies is_digit(#[trigger] block(grid, b)[k]) by {
            assert(is_digit(grid[3 * (b / 3) + k / 3][3 * (b % 3) + k % 3]));
        }
        lemma_group_zero_iff_once(block(grid, b));
    }
}

/// A grid whose rows are permutations of the digits is a grid of digits.
pub proof fn lemma_rows_hold_digits(grid: Grid)
    requires
        rows_are_permutations(grid),
    ensures
        is_grid(grid),
        all_digits(grid),
        countable(grid),
{
    assert forall|r: int, c: int| 0 <= r < 9 && 0 <= c < 9 implies is_digit(
        #[trigger] grid[r][c],
    ) by {
        assert(is_permutation(grid[r]));
    }
}

/// A solved grid has no energy.
pub proof fn lemma_solved_has_no_energy(grid: Grid)
    requires
        solved(grid),
    ensures
        energy_of(grid) == 0,
        complete(grid),
{
    lemma_rows_hold_digits(grid);
    lemma_energy_zero_iff_complete(grid);
    assert forall|c: int| 0 <= c < 9 implies each_digit_once(#[trigger] column(grid, c)) by {
        assert(is_permutation(column(grid, c)));
        lemma_group_zero_iff_once(column(grid, c));
    }
    assert forall|b: int| 0 <= b < 9 implies each_digit_once(#[trigger] block(grid, b)) by {
        assert(is_permutation(block(grid, b)));
        lemma_group_zero_iff_once(block(grid, b));
    }
}

fn group_conflicts(cells: &[u8; 9]) -> (conflicts: usize)
    requires
        forall|i: int| 0 <= i < 9 ==> cells@[i] <= 9,
    ensures
        conflicts == group_energy(cells@),
        conflicts <= 81,
{
    let mut counts: [u8; 10] = [0u8;10];
    let mut i: usize = 0;
    while i < 9
        invariant
            i <= 9,
            forall|k: int| 0 <= k < 9 ==> cells@[k] <= 9,
            forall|d: u8|
                d < 10 ==> counts@[d as int] == #[trigger] occurrences(cells@.take(i as int), d),
        decreases 9 - i,
    {
        let value: usize = cells[i] as usize;
        proof {
            assert forall|d: u8| d < 10 implies #[trigger] occurrences(cells@.take(i + 1), d)
                == occurrences(cells@.take(i as int), d) + if d == value {
                1nat
            } else {
                0nat
            } by {
                lemma_occurrences_next(cells@, i as int, d);
            }
            lemma_occurrences_bound(cells@.take(i as int), value as u8);
        }
        counts[value] = counts[value] + 1;
        i += 1;
    }
    assert(cells@.take(9) =~= cells@);
    let mut conflicts: usize = 0;
    let mut digit: usize = 1;
    while digit < 10
        invariant
            1 <= digit <= 10,
            forall|d: u8| d < 10 ==> counts@[d as int] == #[trigger] occurrences(cells@, d),
            conflicts == group_energy_upto(cells@, digit - 1),
        decreases 10 - digit,
    {
        proof {
            lemma_group_energy_upto(cells@, digit - 1);
        }
        let count: u8 = counts[digit];
        if count > 1 {
            conflicts += (count - 1) as usize;
        }
        digit += 1;
    }
    proof {
        lemma_group_energy_upto(cells@, 9);
    }
    conflicts
}

/// What the columns add to the energy: in every column, each digit counts
/// once for every time it stands there after the first.
pub fn column_conflicts(board: &[[u8; 9]; 9]) -> (conflicts: usize)
    requires
        countable(grid_of(*board)),
    ensures
        conflicts == column_energy(grid_of(*board)),
        conflicts <= 729,
{
    let ghost grid: Grid = grid_of(*board);
    let mut conflicts: usize = 0;
    let mut col: usize = 0;
    while col < 9
        invariant
            col <= 9,
            grid == grid_of(*board),
            countable(grid),
            conflicts == column_energy_upto(grid, col as int),
            conflicts <= 81 * col,
        decreases 9 - col,
    {
        let mut cells: [u8; 9] = [0u8;9];
        let mut row: usize = 0;
        while row < 9
            invariant
                row <= 9,
                col < 9,
                grid == grid_of(*board),
                forall|k: int| 0 <= k < row ==> cells@[k] == grid[k][col as int],
            decreases 9 - row,
        {
            cells[row] = board[row][col];
            row += 1;
        }
        assert(cells@ =~= column(grid, col as int));
        assert forall|k: int| 0 <= k < 9 implies cells@[k] <= 9 by {
            assert(grid[k][col as int] <= 9);
        }
        conflicts += group_conflicts(&cells);
        col += 1;
    }
    conflicts
}

/// What the boxes add to the energy, counted as for the columns.
pub fn box_conflicts(board: &[[u8; 9]; 9]) -> (conflicts: usize)
    requires
        countable(grid_of(*board)),
    ensures
        conflicts == box_energy(grid_of(*board)),
        conflicts <= 729,
{
    let ghost grid: Grid = grid_of(*board);
    let mut conflicts: usize = 0;
    let mut index: usize = 0;
    while index < 9
        invariant
            index <= 9,
            grid == grid_of(*board),
            countable(grid),
            conflicts == box_energy_upto(grid, index as int),
            conflicts <= 81 * index,
        decreases 9 - index,
    {
        let top: usize = 3 * (index / 3);
        let left: usize = 3 * (index % 3);
        let mut cells: [u8; 9] = [0u8;9];
        let mut k: usize = 0;
        while k < 9
            invariant
                k <= 9,
                index < 9,
                top == 3 * (index / 3),
                left == 3 * (index % 3),
                grid == grid_of(*board),
                forall|n: int| 0 <= n < k ==> cells@[n] == grid[top + n / 3][left + n % 3],
            decreases 9 - k,
        {
            cells[k] = board[top + k / 3][left + k % 3];
            k += 1;
        }
        assert(cells@ =~= block(grid, index as int));
        assert forall|n: int| 0 <= n < 9 implies cells@[n] <= 9 by {
            assert(grid[top + n / 3][left + n % 3] <= 9);
        }
        conflicts += group_conflicts(&cells);
        index += 1;
    }
    conflicts
}

fn cell_clashes(board: &[[u8; 9]; 9], r: usize, c: usize) -> (hit: bool)
    requires
        r < 9,
        c < 9,
    ensures
        hit == clashes(grid_of(*board), r as int, c as int),
{
    let ghost grid: Grid = grid_of(*board);
    let value: u8 = board[r][c];
    let top: usize = 3 * (r / 3);
    let left: usize = 3 * (c / 3);
    let mut hit: bool = false;
    let mut k: usize = 0;
    while k < 9
        invariant
            k <= 9,
            r < 9,
            c < 9,
            top == 3 * (r / 3),
            left == 3 * (c / 3),
            grid == grid_of(*board),
            value == grid[r as int][c as int],
            hit <==> exists|r2: int, c2: int|
                0 <= r2 < 9 && 0 <= c2 < 9 && share_group(r as int, c as int, r2, c2)
                    && #[trigger] grid[r2][c2] == value && ((c2 == c && r2 < k) || ((r2 - top) * 3
                    + c2 - left < k && top <= r2 < top + 3 && left <= c2 < left + 3)),
        decreases 9 - k,
    {
        let r2: usize = top + k / 3;
        let c2: usize = left + k % 3;
        if k != r && board[k][c] == value {
            assert(share_group(r as int, c as int, k as int, c as int) && grid[k as int][c as int]
                == value);
            hit = true;
        }
        if (r2 != r || c2 != c) && board[r2][c2] == value {
            assert(share_group(r as int, c as int, r2 as int, c2 as int)
                && grid[r2 as int][c2 as int] == value);
            hit = true;
        }
        k += 1;
    }
    hit
}

/// Marks every cell whose value stands a second time in its column or in its
/// box.
pub fn conflict_mask(board: &[[u8; 9]; 9]) -> (mask: [[bool; 9]; 9])
    ensures
        forall|r: int, c: int|
            0 <= r < 9 && 0 <= c < 9 ==> (#[trigger] mask[r][c] <==> clashes(
                grid_of(*board),
                r,
                c,
            )),
{
    let mut mask: [[bool; 9]; 9] = [[false;9];9];
    let mut r: usize = 0;
    while r < 9
        invariant
            r <= 9,
            forall|i: int, j: int|
                0 <= i < r && 0 <= j < 9 ==> (#[trigger] mask[i][j] <==> clashes(
                    grid_of(*board),
                    i,
                    j,
                )),
        decreases 9 - r,
    {
        let mut c: usize = 0;
        while c < 9
            invariant
                r < 9,
                c <= 9,
                forall|i: int, j: int|
                    (0 <= i < r && 0 <= j < 9) || (i == r && 0 <= j < c) ==> (
                    #[trigger] mask[i][j] <==> clashes(grid_of(*board), i, j)),
            decreases 9 - c,
        {
            let hit: bool = cell_clashes(board, r, c);
            mask[r][c] = hit;
            c += 1;
        }
        r += 1;
    }
    mask
}

} // verus!
