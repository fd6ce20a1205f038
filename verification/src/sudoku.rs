//! Sudoku: the puzzle, its states and the search.
//!
//! A state fills every cell. The search keeps two things true of it: every
//! row is a permutation of the digits, and every given cell holds its given
//! digit. It does so by construction, since the only move swaps two free
//! cells of one row.
use crate::grid::{
    all_digits, box_conflicts, column_conflicts, complete, countable, digit_cells, digit_total,
    energy_of, grid_of, is_digit, is_permutation, lemma_digit_cells_rest,
    lemma_digit_total_is_digit_cells, lemma_energy_zero_iff_complete,
    lemma_occurrences_contains, lemma_solved_has_no_energy, occurrences, rows_are_permutations,
    solved, Grid,
};
pub use crate::grid::conflict_mask;
use crate::random::{draw, draw_other, lemma_rearranged, shuffle, uniform_below};
use crate::schedule::Schedule;
use rand::rngs::StdRng;
use vstd::prelude::*;

verus! {

/// The givens as the contracts see them: rows of cells, each fixed or free.
pub type Givens = Seq<Seq<Option<u8>>>;

/// A board with every cell filled.
#[derive(Clone)]
pub struct SudokuState {
    pub board: [[u8; 9]; 9],
}

/// A puzzle: the cells that are fixed, with their digits.
pub struct SudokuPuzzle {
    pub givens: [[Option<u8>; 9]; 9],
}

/// The budget of a search.
pub struct SamplerConfig {
    pub max_steps: usize,
}

/// How a search ended.
pub struct SolveStats {
    pub steps: usize,
    pub best_energy: usize,
}

impl View for SudokuState {
    type V = Grid;

    open spec fn view(&self) -> Grid {
        grid_of(self.board)
    }
}

impl View for SudokuPuzzle {
    type V = Givens;

    open spec fn view(&self) -> Givens {
        givens_of(self.givens)
    }
}

/// The givens that an array of cells holds.
pub open spec fn givens_of(givens: [[Option<u8>; 9]; 9]) -> Givens {
    Seq::new(9, |r: int| givens[r]@)
}

/// A row of givens is in order if it has nine cells, its givens are digits,
/// and no digit is given twice.
pub open spec fn row_in_order(cells: Seq<Option<u8>>) -> bool {
    &&& cells.len() == 9
    &&& forall|c: int| 0 <= c < 9 && (#[trigger] cells[c]) is Some ==> is_digit(cells[c]->0)
    &&& forall|a: int, b: int| 0 <= a < b < 9 && cells[a] is Some ==> cells[a] != cells[b]
}

/// Whether `grid` holds every given digit in its cell.
pub open spec fn respects(givens: Givens, grid: Grid) -> bool {
    forall|r: int, c: int|
        0 <= r < 9 && 0 <= c < 9 && (#[trigger] givens[r][c]) is Some ==> grid[r][c]
            == givens[r][c]->0
}

/// How many of `cells` are given.
pub open spec fn givens_in(cells: Seq<Option<u8>>) -> nat
    decreases cells.len(),
{
    if cells.len() == 0 {
        0
    } else {
        givens_in(cells.drop_last()) + if cells.last() is Some {
            1nat
        } else {
            0nat
        }
    }
}

/// How many cells of the first `rows` rows are given.
pub open spec fn given_count_upto(givens: Givens, rows: int) -> nat
    decreases rows,
{
    if rows <= 0 {
        0
    } else {
        given_count_upto(givens, rows - 1) + givens_in(givens[rows - 1])
    }
}

/// How many cells are given.
pub open spec fn given_count(givens: Givens) -> nat {
    given_count_upto(givens, 9)
}

/// The columns below `upto` whose cell is free, in rising order.
pub open spec fn free_columns(cells: Seq<Option<u8>>, upto: int) -> Seq<usize>
    decreases upto,
{
    if upto <= 0 {
        Seq::empty()
    } else if cells[upto - 1] is None {
        free_columns(cells, upto - 1).push((upto - 1) as usize)
    } else {
        free_columns(cells, upto - 1)
    }
}

impl SudokuPuzzle {
    /// Every row of givens is in order. A puzzle made by taking cells out of
    /// a solved board is.
    pub open spec fn wf(&self) -> bool {
        forall|r: int| 0 <= r < 9 ==> row_in_order(#[trigger] self@[r])
    }

    /// Some solved board holds every given digit in its cell.
    pub open spec fn solvable(&self) -> bool {
        exists|grid: Grid| solved(grid) && respects(self@, grid)
    }
}

/// The givens of a solvable puzzle are in order.
pub proof fn lemma_solvable_is_wf(puzzle: SudokuPuzzle)
    requires
        puzzle.solvable(),
    ensures
        puzzle.wf(),
{
    let grid: Grid = choose|grid: Grid| solved(grid) && respects(puzzle@, grid);
    assert forall|r: int| 0 <= r < 9 implies row_in_order(#[trigger] puzzle@[r]) by {
        let cells: Seq<Option<u8>> = puzzle@[r];
        assert(is_permutation(grid[r]));
        assert forall|c: int| 0 <= c < 9 && (#[trigger] cells[c]) is Some implies is_digit(
            cells[c]->0,
        ) by {
            assert(puzzle@[r][c] is Some);
            assert(is_digit(grid[r][c]));
        }
        assert forall|a: int, b: int| 0 <= a < b < 9 && cells[a] is Some implies cells[a]
            != cells[b] by {
            assert(puzzle@[r][a] is Some);
            if cells[b] is Some {
                assert(puzzle@[r][b] is Some);
                assert(grid[r][a] != grid[r][b]);
            }
        }
    }
}

/// Freeing a given cell leaves one given fewer in its row.
pub proof fn lemma_givens_in_freed(cells: Seq<Option<u8>>, c: int)
    requires
        0 <= c < cells.len(),
        cells[c] is Some,
    ensures
        givens_in(cells.update(c, None)) + 1 == givens_in(cells),
    decreases cells.len(),
{
    let freed: Seq<Option<u8>> = cells.update(c, None);
    if c == cells.len() - 1 {
        assert(freed.drop_last() =~= cells.drop_last());
    } else {
        lemma_givens_in_freed(cells.drop_last(), c);
        assert(freed.drop_last() =~= cells.drop_last().update(c, None));
    }
}

/// Changing one row changes the count by what that row gains or loses.
pub proof fn lemma_given_count_row(givens: Givens, rows: int, r: int, line: Seq<Option<u8>>)
    requires
        0 <= r < givens.len(),
        0 <= rows <= givens.len(),
    ensures
        given_count_upto(givens.update(r, line), rows) == given_count_upto(givens, rows) + if r
            < rows {
            givens_in(line) - givens_in(givens[r])
        } else {
            0
        },
    decreases rows,
{
    if rows > 0 {
        lemma_given_count_row(givens, rows - 1, r, line);
    }
}

proof fn lemma_givens_in_full(cells: Seq<Option<u8>>)
    ensures
        givens_in(cells) <= cells.len(),
        givens_in(cells) == cells.len() <==> forall|c: int|
            0 <= c < cells.len() ==> (#[trigger] cells[c]) is Some,
    decreases cells.len(),
{
    if cells.len() > 0 {
        let front: Seq<Option<u8>> = cells.drop_last();
        lemma_givens_in_full(front);
        if givens_in(cells) == cells.len() {
            assert forall|c: int| 0 <= c < cells.len() implies (#[trigger] cells[c]) is Some by {
                if c < front.len() {
                    assert(front[c] is Some);
                }
            }
        }
        if forall|c: int| 0 <= c < cells.len() ==> (#[trigger] cells[c]) is Some {
            assert forall|c: int| 0 <= c < front.len() implies (#[trigger] front[c]) is Some by {
                assert(cells[c] is Some);
            }
            assert(cells[cells.len() - 1] is Some);
        }
    }
}

proof fn lemma_given_count_full(givens: Givens, rows: int)
    requires
        0 <= rows <= givens.len(),
        forall|r: int| 0 <= r < givens.len() ==> (#[trigger] givens[r]).len() == 9,
    ensures
        given_count_upto(givens, rows) <= 9 * rows,
        given_count_upto(givens, rows) == 9 * rows <==> forall|r: int, c: int|
            0 <= r < rows && 0 <= c < 9 ==> (#[trigger] givens[r][c]) is Some,
    decreases rows,
{
    if rows > 0 {
        lemma_given_count_full(givens, rows - 1);
        lemma_givens_in_full(givens[rows - 1]);
        if forall|r: int, c: int|
            0 <= r < rows && 0 <= c < 9 ==> (#[trigger] givens[r][c]) is Some {
            assert forall|c: int| 0 <= c < 9 implies (#[trigger] givens[rows - 1][c]) is Some by {}
        }
    }
}

/// There are 81 givens exactly where every cell is given.
pub proof fn lemma_full_count(givens: Givens)
    requires
        givens.len() == 9,
        forall|r: int| 0 <= r < 9 ==> (#[trigger] givens[r]).len() == 9,
    ensures
        given_count(givens) <= 81,
        given_count(givens) == 81 <==> forall|r: int, c: int|
            0 <= r < 9 && 0 <= c < 9 ==> (#[trigger] givens[r][c]) is Some,
{
    lemma_given_count_full(givens, 9);
}

/// A prefix of `n` cells holds at most `n` givens.
pub proof fn lemma_givens_in_bound(cells: Seq<Option<u8>>, n: int)
    requires
        0 <= n <= cells.len(),
    ensures
        givens_in(cells.take(n)) <= n,
    decreases n,
{
    if n > 0 {
        lemma_givens_in_bound(cells, n - 1);
        assert(cells.take(n).drop_last() =~= cells.take(n - 1));
    }
}

/// The free columns are columns of free cells, listed once each and in
/// rising order, and they are all of them.
pub proof fn lemma_free_columns(cells: Seq<Option<u8>>, upto: int)
    requires
        0 <= upto <= cells.len(),
        cells.len() <= usize::MAX,
    ensures
        free_columns(cells, upto).len() <= upto,
        forall|k: int|
            0 <= k < free_columns(cells, upto).len() ==> (#[trigger] free_columns(cells, upto)[k])
                < upto && cells[free_columns(cells, upto)[k] as int] is None,
        forall|j: int, k: int|
            0 <= j < k < free_columns(cells, upto).len() ==> free_columns(cells, upto)[j]
                < free_columns(cells, upto)[k],
        forall|c: int|
            0 <= c < upto && cells[c] is None ==> free_columns(cells, upto).contains(c as usize),
    decreases upto,
{
    if upto > 0 {
        lemma_free_columns(cells, upto - 1);
        let before: Seq<usize> = free_columns(cells, upto - 1);
        let now: Seq<usize> = free_columns(cells, upto);
        assert forall|c: int| 0 <= c < upto && cells[c] is None implies now.contains(
            c as usize,
        ) by {
            if c < upto - 1 {
                let k: int = choose|k: int| 0 <= k < before.len() && before[k] == c as usize;
                assert(now[k] == c as usize);
            } else {
                assert(now[now.len() - 1] == c as usize);
            }
        }
    }
}

/// Counts the given cells.
pub fn count_givens(givens: &[[Option<u8>; 9]; 9]) -> (count: usize)
    ensures
        count == given_count(givens_of(*givens)),
        count <= 81,
{
    let mut count: usize = 0;
    let mut row: usize = 0;
    while row < 9
        invariant
            row <= 9,
            count == given_count_upto(givens_of(*givens), row as int),
            count <= 9 * row,
        decreases 9 - row,
    {
        let ghost cells: Seq<Option<u8>> = givens_of(*givens)[row as int];
        let ghost before: nat = count as nat;
        let mut col: usize = 0;
        while col < 9
            invariant
                col <= 9,
                row < 9,
                cells == givens_of(*givens)[row as int],
                before <= 9 * row,
                count == before + givens_in(cells.take(col as int)),
            decreases 9 - col,
        {
            proof {
                assert(cells.take(col + 1).drop_last() =~= cells.take(col as int));
                lemma_givens_in_bound(cells, col as int);
            }
            if givens[row][col].is_some() {
                count += 1;
            }
            col += 1;
        }
        proof {
            assert(cells.take(9) =~= cells);
            lemma_givens_in_bound(cells, 9);
        }
        row += 1;
    }
    count
}

impl SudokuPuzzle {
    /// For every row, the columns of its free cells in rising order.
    pub fn row_free_positions(&self) -> (positions: Vec<Vec<usize>>)
        ensures
            positions@.len() == 9,
            forall|r: int| 0 <= r < 9 ==> (#[trigger] positions@[r])@ == free_columns(self@[r], 9),
    {
        let mut positions: Vec<Vec<usize>> = Vec::new();
        let mut row: usize = 0;
        while row < 9
            invariant
                row <= 9,
                positions@.len() == row,
                forall|r: int|
                    0 <= r < row ==> (#[trigger] positions@[r])@ == free_columns(self@[r], 9),
            decreases 9 - row,
        {
            let mut free: Vec<usize> = Vec::new();
            let mut col: usize = 0;
            while col < 9
                invariant
                    col <= 9,
                    row < 9,
                    free@ == free_columns(self@[row as int], col as int),
                decreases 9 - col,
            {
                if self.givens[row][col].is_none() {
                    free.push(col);
                }
                col += 1;
            }
            positions.push(free);
            row += 1;
        }
        positions
    }
}

/// The values of a row of givens, with 0 for a free cell.
pub open spec fn given_values(cells: Seq<Option<u8>>) -> Seq<u8> {
    Seq::new(
        cells.len(),
        |c: int|
            match cells[c] {
                Some(value) => value,
                None => 0u8,
            },
    )
}

proof fn lemma_given_once(values: Seq<u8>, digit: u8)
    requires
        digit != 0,
        forall|a: int, b: int|
            0 <= a < b < values.len() && values[a] != 0 ==> values[a] != values[b],
    ensures
        occurrences(values, digit) <= 1,
    decreases values.len(),
{
    if values.len() > 0 {
        let front: Seq<u8> = values.drop_last();
        assert forall|a: int, b: int| 0 <= a < b < front.len() && front[a] != 0 implies front[a]
            != front[b] by {
            assert(values[a] != values[b]);
        }
        lemma_given_once(front, digit);
        lemma_occurrences_contains(front, digit);
        if values.last() == digit && front.contains(digit) {
            let i: int = choose|i: int| 0 <= i < front.len() && front[i] == digit;
            assert(values[i] != values[values.len() - 1]);
        }
    }
}

proof fn lemma_row_in_order(cells: Seq<Option<u8>>)
    requires
        row_in_order(cells),
    ensures
        forall|a: int, b: int|
            0 <= a < b < 9 && given_values(cells)[a] != 0 ==> given_values(cells)[a]
                != given_values(cells)[b],
        forall|c: int|
            0 <= c < 9 ==> (is_digit(#[trigger] given_values(cells)[c]) <==> cells[c] is Some),
{
    assert forall|a: int, b: int| 0 <= a < b < 9 && given_values(cells)[a] != 0 implies given_values(
        cells,
    )[a] != given_values(cells)[b] by {
        assert(cells[a] is Some);
        assert(cells[a] != cells[b]);
        if cells[b] is Some {
            assert(is_digit(cells[b]->0));
        }
    }
    assert forall|c: int| 0 <= c < 9 implies (is_digit(#[trigger] given_values(cells)[c])
        <==> cells[c] is Some) by {
        if cells[c] is Some {
            assert(is_digit(cells[c]->0));
        }
    }
}

fn is_given(cells: &[Option<u8>; 9], digit: u8) -> (found: bool)
    requires
        digit != 0,
    ensures
        found == given_values(cells@).contains(digit),
{
    let ghost values: Seq<u8> = given_values(cells@);
    let mut found: bool = false;
    let mut col: usize = 0;
    while col < 9
        invariant
            col <= 9,
            digit != 0,
            values == given_values(cells@),
            found == exists|c: int| 0 <= c < col && values[c] == digit,
        decreases 9 - col,
    {
        match cells[col] {
            Some(value) => {
                if value == digit {
                    assert(values[col as int] == digit);
                    found = true;
                }
            },
            None => {},
        }
        col += 1;
    }
    found
}

/// The digits that are not given in the row, in rising order.
fn missing_digits(cells: &[Option<u8>; 9]) -> (digits: Vec<u8>)
    requires
        row_in_order(cells@),
    ensures
        digits@.no_duplicates(),
        forall|k: int|
            0 <= k < digits@.len() ==> is_digit(#[trigger] digits@[k]) && !given_values(
                cells@,
            ).contains(digits@[k]),
        digits@.len() + digit_cells(given_values(cells@)) == 9,
{
    let ghost values: Seq<u8> = given_values(cells@);
    let mut digits: Vec<u8> = Vec::new();
    let mut digit: u8 = 1;
    proof {
        lemma_row_in_order(cells@);
    }
    while digit < 10
        invariant
            1 <= digit <= 10,
            values == given_values(cells@),
            forall|a: int, b: int|
                0 <= a < b < values.len() && values[a] != 0 ==> values[a] != values[b],
            forall|k: int|
                0 <= k < digits@.len() ==> 1 <= #[trigger] digits@[k] < digit && !values.contains(
                    digits@[k],
                ),
            forall|j: int, k: int| 0 <= j < k < digits@.len() ==> digits@[j] < digits@[k],
            digits@.len() + digit_total(values, digit - 1) == digit - 1,
        decreases 10 - digit,
    {
        proof {
            lemma_given_once(values, digit);
            lemma_occurrences_contains(values, digit);
        }
        if !is_given(cells, digit) {
            digits.push(digit);
        }
        digit += 1;
    }
    proof {
        lemma_digit_total_is_digit_cells(values);
    }
    digits
}

/// Fills the free cells of a row with the digits that are not given in it, in
/// a random order.
fn fill_row(cells: &[Option<u8>; 9], rng: &mut StdRng) -> (line: [u8; 9])
    requires
        row_in_order(cells@),
    ensures
        is_permutation(line@),
        forall|c: int| 0 <= c < 9 && (#[trigger] cells@[c]) is Some ==> line@[c] == cells@[c]->0,
{
    let ghost values: Seq<u8> = given_values(cells@);
    let mut digits: Vec<u8> = missing_digits(cells);
    let ghost ordered: Seq<u8> = digits@;
    shuffle(&mut digits, rng);
    proof {
        lemma_rearranged(ordered, digits@);
        lemma_row_in_order(cells@);
        assert forall|k: int| 0 <= k < digits@.len() implies is_digit(#[trigger] digits@[k])
            && !values.contains(digits@[k]) by {
            assert(digits@.contains(digits@[k]));
            let j: int = choose|j: int| 0 <= j < ordered.len() && ordered[j] == digits@[k];
            assert(is_digit(ordered[j]));
        }
    }
    let mut line: [u8; 9] = [0u8;9];
    let mut next: usize = 0;
    let ghost mut slots: Seq<int> = Seq::empty();
    let mut col: usize = 0;
    while col < 9
        invariant
            col <= 9,
            row_in_order(cells@),
            values == given_values(cells@),
            digits@.len() + digit_cells(values) == 9,
            next + digit_cells(values.take(col as int)) == col,
            next <= digits@.len(),
            slots.len() == col,
            forall|c: int|
                0 <= c < col && (#[trigger] cells@[c]) is Some ==> line@[c] == cells@[c]->0,
            forall|c: int|
                0 <= c < col && (#[trigger] cells@[c]) is None ==> 0 <= slots[c] < next && line@[c]
                    == digits@[slots[c]],
            forall|a: int, b: int|
                0 <= a < b < col && cells@[a] is None && cells@[b] is None ==> #[trigger] slots[a]
                    < #[trigger] slots[b],
        decreases 9 - col,
    {
        proof {
            lemma_digit_cells_rest(values, col + 1);
            assert(values.take(col + 1).drop_last() =~= values.take(col as int));
            lemma_row_in_order(cells@);
            assert(is_digit(values[col as int]) <==> cells@[col as int] is Some);
        }
        match cells[col] {
            Some(value) => {
                line[col] = value;
                proof {
                    slots = slots.push(-1);
                }
            },
            None => {
                line[col] = digits[next];
                proof {
                    slots = slots.push(next as int);
                }
                next += 1;
            },
        }
        col += 1;
    }
    proof {
        lemma_row_in_order(cells@);
        assert(values.take(9) =~= values);
        assert forall|i: int| 0 <= i < 9 implies is_digit(#[trigger] line@[i]) by {
            if cells@[i] is Some {
                assert(is_digit(cells@[i]->0));
            } else {
                assert(is_digit(digits@[slots[i]]));
            }
        }
        assert forall|i: int, j: int| 0 <= i < 9 && 0 <= j < 9 && i != j implies line@[i]
            != line@[j] by {
            let a: int = if i < j {
                i
            } else {
                j
            };
            let b: int = if i < j {
                j
            } else {
                i
            };
            if cells@[a] is Some && cells@[b] is Some {
                assert(cells@[a] != cells@[b]);
            } else if cells@[a] is None && cells@[b] is None {
                assert(slots[a] < slots[b]);
            } else if cells@[a] is Some {
                assert(values[a] == line@[a]);
                assert(!values.contains(digits@[slots[b]]));
            } else {
                assert(values[b] == line@[b]);
                assert(!values.contains(digits@[slots[a]]));
            }
        }
    }
    line
}

fn given_is_in_order(cells: &[Option<u8>; 9], a: usize) -> (ok: bool)
    requires
        a < 9,
    ensures
        ok == ((cells@[a as int] is Some ==> is_digit(cells@[a as int]->0)) && forall|b: int|
            a < b < 9 && cells@[a as int] is Some ==> cells@[a as int] != cells@[b]),
{
    match cells[a] {
        None => true,
        Some(value) => {
            if value < 1 || value > 9 {
                return false;
            }
            let mut b: usize = a + 1;
            while b < 9
                invariant
                    a < b <= 9,
                    cells@[a as int] == Some(value),
                    forall|k: int| a < k < b ==> cells@[a as int] != cells@[k],
                decreases 9 - b,
            {
                match cells[b] {
                    Some(other) => {
                        if other == value {
                            return false;
                        }
                    },
                    None => {},
                }
                b += 1;
            }
            true
        },
    }
}

fn row_is_in_order(cells: &[Option<u8>; 9]) -> (ok: bool)
    ensures
        ok == row_in_order(cells@),
{
    let mut a: usize = 0;
    while a < 9
        invariant
            a <= 9,
            forall|c: int| 0 <= c < a && (#[trigger] cells@[c]) is Some ==> is_digit(cells@[c]->0),
            forall|c: int, b: int| 0 <= c < a && c < b < 9 && cells@[c] is Some ==> cells@[c]
                != cells@[b],
        decreases 9 - a,
    {
        if !given_is_in_order(cells, a) {
            return false;
        }
        a += 1;
    }
    true
}

impl SudokuPuzzle {
    /// Whether the givens are in order: the check for a puzzle that was put
    /// together by hand.
    pub fn in_order(&self) -> (ok: bool)
        ensures
            ok == self.wf(),
    {
        let mut row: usize = 0;
        while row < 9
            invariant
                row <= 9,
                forall|r: int| 0 <= r < row ==> row_in_order(#[trigger] self@[r]),
            decreases 9 - row,
        {
            if !row_is_in_order(&self.givens[row]) {
                assert(!row_in_order(self@[row as int]));
                return false;
            }
            row += 1;
        }
        true
    }

    /// A random state for this puzzle: the givens in their cells, and in
    /// every row the missing digits, shuffled, in the free cells.
    pub fn random_initial_state(&self, rng: &mut StdRng) -> (state: SudokuState)
        requires
            self.wf(),
        ensures
            rows_are_permutations(state@),
            respects(self@, state@),
    {
        let mut board: [[u8; 9]; 9] = [[0u8;9];9];
        let mut row: usize = 0;
        while row < 9
            invariant
                row <= 9,
                self.wf(),
                forall|r: int| 0 <= r < row ==> is_permutation(#[trigger] grid_of(board)[r]),
                forall|r: int, c: int|
                    0 <= r < row && 0 <= c < 9 && (#[trigger] self@[r][c]) is Some ==> grid_of(
                        board,
                    )[r][c] == self@[r][c]->0,
            decreases 9 - row,
        {
            assert(row_in_order(self@[row as int]));
            let line: [u8; 9] = fill_row(&self.givens[row], rng);
            let ghost filled: Grid = grid_of(board);
            board[row] = line;
            proof {
                assert(grid_of(board)[row as int] == line@);
                assert forall|r: int| 0 <= r < row implies #[trigger] grid_of(board)[r]
                    == filled[r] by {}
            }
            row += 1;
        }
        SudokuState { board }
    }
}

impl SudokuState {
    /// The energy of the state: what its columns and its boxes hold too
    /// often. On a board of digits it is zero exactly when every column and
    /// every box holds each digit once.
    pub fn energy(&self) -> (energy: usize)
        requires
            countable(self@),
        ensures
            energy == energy_of(self@),
            all_digits(self@) ==> (energy == 0 <==> complete(self@)),
    {
        proof {
            if all_digits(self@) {
                lemma_energy_zero_iff_complete(self@);
            }
        }
        column_conflicts(&self.board) + box_conflicts(&self.board)
    }
}

/// A single change to a state: two cells of one row change places.
#[derive(Clone, Copy, Debug)]
pub struct SudokuMove {
    pub row: usize,
    pub first: usize,
    pub second: usize,
}

/// Whether the cells of `m` lie on the board.
pub open spec fn on_board(m: SudokuMove) -> bool {
    m.row < 9 && m.first < 9 && m.second < 9
}

/// Whether `m` swaps two free cells.
pub open spec fn admissible(givens: Givens, m: SudokuMove) -> bool {
    &&& on_board(m)
    &&& givens[m.row as int][m.first as int] is None
    &&& givens[m.row as int][m.second as int] is None
}

/// The grid after `m`.
pub open spec fn swapped(grid: Grid, m: SudokuMove) -> Grid {
    let line: Seq<u8> = grid[m.row as int];
    grid.update(
        m.row as int,
        line.update(m.first as int, line[m.second as int]).update(
            m.second as int,
            line[m.first as int],
        ),
    )
}

/// The grid after one decision on `m`: the swap stands if it does not raise
/// the energy, or if the draw took it all the same.
pub open spec fn settled(grid: Grid, m: SudokuMove, uphill_taken: bool) -> Grid {
    if energy_of(swapped(grid, m)) <= energy_of(grid) || uphill_taken {
        swapped(grid, m)
    } else {
        grid
    }
}

/// The best energy after a step that ended at `energy`.
pub open spec fn best_after(best: nat, energy: nat) -> nat {
    if energy < best {
        energy
    } else {
        best
    }
}

/// A swap of two free cells of a row leaves every row a permutation of the
/// digits and every given digit in its cell.
pub proof fn lemma_swap_keeps_invariants(givens: Givens, grid: Grid, m: SudokuMove)
    requires
        rows_are_permutations(grid),
        respects(givens, grid),
        admissible(givens, m),
    ensures
        rows_are_permutations(swapped(grid, m)),
        respects(givens, swapped(grid, m)),
{
    let after: Grid = swapped(grid, m);
    let line: Seq<u8> = grid[m.row as int];
    let turned: Seq<u8> = after[m.row as int];
    assert(is_permutation(line));
    assert forall|i: int| 0 <= i < 9 implies is_digit(#[trigger] turned[i]) by {
        assert(is_digit(line[i]) && is_digit(line[m.first as int]) && is_digit(
            line[m.second as int],
        ));
    }
    assert forall|r: int| 0 <= r < 9 implies is_permutation(#[trigger] after[r]) by {
        if r != m.row {
            assert(after[r] == grid[r]);
        }
    }
    assert forall|r: int, c: int|
        0 <= r < 9 && 0 <= c < 9 && (#[trigger] givens[r][c]) is Some implies after[r][c]
        == givens[r][c]->0 by {
        assert(grid[r][c] == givens[r][c]->0);
    }
}

/// One iteration of a search as chance made it: the swap that was proposed,
/// if any, and whether the draw takes it if it raises the energy.
pub type Turn = (Option<SudokuMove>, bool);

/// The grid after one iteration.
pub open spec fn after_turn(grid: Grid, turn: Turn) -> Grid {
    match turn.0 {
        Some(m) => settled(grid, m, turn.1),
        None => grid,
    }
}

/// The grid after `turns`, from `start`.
pub open spec fn after_turns(start: Grid, turns: Seq<Turn>) -> Grid
    decreases turns.len(),
{
    if turns.len() == 0 {
        start
    } else {
        after_turn(after_turns(start, turns.drop_last()), turns.last())
    }
}

/// The number of turns after which the search stood at its best state: the
/// first state whose energy none of the later ones went below.
pub open spec fn best_prefix(start: Grid, turns: Seq<Turn>) -> nat
    decreases turns.len(),
{
    if turns.len() == 0 {
        0
    } else {
        let earlier: nat = best_prefix(start, turns.drop_last());
        if energy_of(after_turns(start, turns)) < energy_of(
            after_turns(start, turns.drop_last().take(earlier as int)),
        ) {
            turns.len()
        } else {
            earlier
        }
    }
}

/// The best state of a search that went through `turns`.
pub open spec fn best_grid(start: Grid, turns: Seq<Turn>) -> Grid {
    after_turns(start, turns.take(best_prefix(start, turns) as int))
}

/// Whether a search may propose what `turn` says: a swap of two different
/// free cells, or none where some row has fewer than two.
pub open spec fn turn_allowed(givens: Givens, turn: Turn) -> bool {
    match turn.0 {
        Some(m) => admissible(givens, m) && m.first != m.second,
        None => exists|r: int| 0 <= r < 9 && (#[trigger] free_columns(givens[r], 9)).len() < 2,
    }
}

/// Whether a search from `start` can go through `turns`: each is made while
/// the energy is not zero, and proposes what a search may propose.
pub open spec fn is_course(givens: Givens, start: Grid, turns: Seq<Turn>) -> bool {
    forall|k: int|
        0 <= k < turns.len() ==> energy_of(after_turns(start, #[trigger] turns.take(k))) != 0
            && turn_allowed(givens, turns[k])
}

/// Whether a search from `start` with a budget of `max_steps` that goes
/// through `turns` ends with `best` and `stats`: it stops when the budget is
/// used up or the energy is zero, and returns its best state.
pub open spec fn search_gives(
    givens: Givens,
    start: Grid,
    turns: Seq<Turn>,
    max_steps: usize,
    best: Grid,
    stats: SolveStats,
) -> bool {
    &&& is_course(givens, start, turns)
    &&& stats.steps == turns.len()
    &&& stats.steps <= max_steps
    &&& stats.steps == max_steps || energy_of(after_turns(start, turns)) == 0
    &&& best == best_grid(start, turns)
    &&& stats.best_energy == energy_of(best)
}

proof fn lemma_best_prefix_bound(start: Grid, turns: Seq<Turn>)
    ensures
        best_prefix(start, turns) <= turns.len(),
    decreases turns.len(),
{
    if turns.len() > 0 {
        lemma_best_prefix_bound(start, turns.drop_last());
    }
}

/// A course stays a course when its last turn is left out.
proof fn lemma_course_shortened(givens: Givens, start: Grid, turns: Seq<Turn>)
    requires
        is_course(givens, start, turns),
        turns.len() > 0,
    ensures
        is_course(givens, start, turns.drop_last()),
{
    let front: Seq<Turn> = turns.drop_last();
    assert forall|k: int| 0 <= k < front.len() implies energy_of(
        after_turns(start, #[trigger] front.take(k)),
    ) != 0 && turn_allowed(givens, front[k]) by {
        assert(front.take(k) =~= turns.take(k));
    }
}

/// What one more turn does to a course, to the grid it leads to and to the
/// best grid on it.
proof fn lemma_course_extended(givens: Givens, start: Grid, turns: Seq<Turn>, turn: Turn)
    requires
        is_course(givens, start, turns),
        energy_of(after_turns(start, turns)) != 0,
        turn_allowed(givens, turn),
    ensures
        is_course(givens, start, turns.push(turn)),
        after_turns(start, turns.push(turn)) == after_turn(after_turns(start, turns), turn),
        best_grid(start, turns.push(turn)) == if energy_of(
            after_turn(after_turns(start, turns), turn),
        ) < energy_of(best_grid(start, turns)) {
            after_turn(after_turns(start, turns), turn)
        } else {
            best_grid(start, turns)
        },
{
    let longer: Seq<Turn> = turns.push(turn);
    assert(longer.drop_last() =~= turns);
    assert forall|k: int| 0 <= k < longer.len() implies energy_of(
        after_turns(start, #[trigger] longer.take(k)),
    ) != 0 && turn_allowed(givens, longer[k]) by {
        if k < turns.len() {
            assert(longer.take(k) =~= turns.take(k));
            assert(longer[k] == turns[k]);
        } else {
            assert(longer.take(k) =~= turns);
        }
    }
    lemma_best_prefix_bound(start, turns);
    let mark: int = best_prefix(start, turns) as int;
    assert(longer.take(mark) =~= turns.take(mark));
    assert(longer.take(longer.len() as int) =~= longer);
}

/// After any number of turns, taken or not, every row is a permutation of the
/// digits and every given digit stands in its cell.
pub proof fn lemma_course_keeps_invariants(givens: Givens, start: Grid, turns: Seq<Turn>)
    requires
        rows_are_permutations(start),
        respects(givens, start),
        is_course(givens, start, turns),
    ensures
        rows_are_permutations(after_turns(start, turns)),
        respects(givens, after_turns(start, turns)),
    decreases turns.len(),
{
    if turns.len() > 0 {
        let front: Seq<Turn> = turns.drop_last();
        lemma_course_shortened(givens, start, turns);
        lemma_course_keeps_invariants(givens, start, front);
        assert(turn_allowed(givens, turns[turns.len() - 1])) by {
            assert(turns.take(turns.len() - 1) =~= front);
        }
        match turns.last().0 {
            Some(m) => {
                lemma_swap_keeps_invariants(givens, after_turns(start, front), m);
            },
            None => {},
        }
    }
}

/// The best state of a search has the least energy of all the states that the
/// search went through, the first one included.
pub proof fn lemma_best_is_least(start: Grid, turns: Seq<Turn>, k: int)
    requires
        0 <= k <= turns.len(),
    ensures
        energy_of(best_grid(start, turns)) <= energy_of(after_turns(start, turns.take(k))),
    decreases turns.len(),
{
    if turns.len() > 0 {
        let front: Seq<Turn> = turns.drop_last();
        let earlier: nat = best_prefix(start, front);
        lemma_best_prefix_bound(start, front);
        assert(turns.take(earlier as int) =~= front.take(earlier as int));
        assert(turns.take(turns.len() as int) =~= turns);
        if k < turns.len() {
            lemma_best_is_least(start, front, k);
            assert(turns.take(k) =~= front.take(k));
        }
    } else {
        assert(turns.take(0) =~= turns);
    }
}

/// Whether `positions` lists, for every row of `givens`, the columns of its
/// free cells in rising order.
pub open spec fn lists_free_cells(positions: Seq<Vec<usize>>, givens: Givens) -> bool {
    positions.len() == 9 && forall|r: int|
        0 <= r < 9 ==> (#[trigger] positions[r])@ == free_columns(givens[r], 9)
}

/// Picks a row at random and, if it has two free cells or more, two of them,
/// different ones, at random. A row with fewer yields no move.
pub fn propose_swap(
    puzzle: &SudokuPuzzle,
    positions: &Vec<Vec<usize>>,
    rng: &mut StdRng,
) -> (proposal: Option<SudokuMove>)
    requires
        lists_free_cells(positions@, puzzle@),
    ensures
        proposal matches Some(m) ==> admissible(puzzle@, m) && m.first != m.second,
        proposal is None ==> exists|r: int|
            0 <= r < 9 && (#[trigger] free_columns(puzzle@[r], 9)).len() < 2,
{
    let row: usize = uniform_below(rng, 9);
    let free: &Vec<usize> = &positions[row];
    proof {
        lemma_free_columns(puzzle@[row as int], 9);
    }
    if free.len() < 2 {
        assert(free_columns(puzzle@[row as int], 9).len() < 2);
        return None;
    }
    let a: usize = uniform_below(rng, free.len());
    let b: usize = draw_other(rng, free.len(), a);
    proof {
        if a < b {
            assert(free@[a as int] < free@[b as int]);
        } else {
            assert(free@[b as int] < free@[a as int]);
        }
    }
    Some(SudokuMove { row, first: free[a], second: free[b] })
}

/// A search under way: where it stands and the best it has seen.
pub struct SudokuSearch {
    pub state: SudokuState,
    pub energy: usize,
    pub best_state: SudokuState,
    pub best_energy: usize,
}

impl SudokuSearch {
    /// Both states keep the invariants of the puzzle, both energies are those
    /// of their states, and the best is not above the current.
    pub open spec fn wf(&self, givens: Givens) -> bool {
        &&& rows_are_permutations(self.state@)
        &&& respects(givens, self.state@)
        &&& self.energy == energy_of(self.state@)
        &&& rows_are_permutations(self.best_state@)
        &&& respects(givens, self.best_state@)
        &&& self.best_energy == energy_of(self.best_state@)
        &&& self.best_energy <= self.energy
    }

    /// A search that stands at `start` and has seen nothing else.
    pub fn begin(puzzle: &SudokuPuzzle, start: SudokuState) -> (search: SudokuSearch)
        requires
            rows_are_permutations(start@),
            respects(puzzle@, start@),
        ensures
            search.wf(puzzle@),
            search.state@ == start@,
            search.best_state@ == start@,
            search.energy == energy_of(start@),
            search.best_energy == energy_of(start@),
    {
        let energy: usize = start.energy();
        let best_state: SudokuState = SudokuState { board: start.board };
        SudokuSearch { state: start, energy, best_state, best_energy: energy }
    }

    /// Makes the swap, then keeps or undoes it. A swap that does not raise
    /// the energy is kept. One that does is kept with the odds that the
    /// schedule gives; if the draw says no, the cells go back and the state
    /// is as it was. A state with less energy than the best seen becomes the
    /// best.
    pub fn advance<S: Schedule>(
        &mut self,
        puzzle: &SudokuPuzzle,
        m: SudokuMove,
        schedule: &S,
        rng: &mut StdRng,
    )
        requires
            old(self).wf(puzzle@),
            admissible(puzzle@, m),
        ensures
            final(self).wf(puzzle@),
            final(self).state@ == settled(old(self).state@, m, true) || final(self).state@
                == settled(old(self).state@, m, false),
            final(self).best_energy == best_after(
                old(self).best_energy as nat,
                final(self).energy as nat,
            ),
            final(self).best_state@ == if final(self).energy < old(self).best_energy {
                final(self).state@
            } else {
                old(self).best_state@
            },
    {
        let ghost before: Grid = self.state@;
        proof {
            lemma_swap_keeps_invariants(puzzle@, before, m);
        }
        let first: u8 = self.state.board[m.row][m.first];
        let second: u8 = self.state.board[m.row][m.second];
        self.state.board[m.row][m.first] = second;
        self.state.board[m.row][m.second] = first;
        assert(self.state@ =~~= swapped(before, m));
        let raised: usize = self.state.energy();
        let keep: bool = if raised <= self.energy {
            true
        } else {
            draw(rng, &schedule.acceptance(raised - self.energy))
        };
        if keep {
            self.energy = raised;
            if raised < self.best_energy {
                self.best_energy = raised;
                self.best_state = SudokuState { board: self.state.board };
            }
        } else {
            self.state.board[m.row][m.first] = first;
            self.state.board[m.row][m.second] = second;
            assert(self.state@ =~~= before);
        }
    }
}

/// A search from `start`: up to `config.max_steps` iterations, none once the
/// energy is zero. Each iteration proposes a swap and, if there is one,
/// decides on it; then the schedule cools, swap or no swap. Returns the best
/// state seen.
pub fn solve_from<S: Schedule>(
    puzzle: &SudokuPuzzle,
    start: SudokuState,
    config: &SamplerConfig,
    schedule: &mut S,
    rng: &mut StdRng,
) -> (result: (SudokuState, SolveStats))
    requires
        rows_are_permutations(start@),
        respects(puzzle@, start@),
    ensures
        exists|turns: Seq<Turn>| #[trigger]
            search_gives(puzzle@, start@, turns, config.max_steps, result.0@, result.1),
        rows_are_permutations(result.0@),
        respects(puzzle@, result.0@),
        result.1.best_energy == energy_of(result.0@),
        result.1.best_energy <= energy_of(start@),
        result.1.steps <= config.max_steps,
        result.1.best_energy == 0 || result.1.steps == config.max_steps,
        result.1.steps == 0 <==> config.max_steps == 0 || energy_of(start@) == 0,
        result.1.steps == 0 ==> result.0@ == start@,
{
    let ghost origin: Grid = start@;
    let mut search: SudokuSearch = SudokuSearch::begin(puzzle, start);
    schedule.restart();
    let positions: Vec<Vec<usize>> = puzzle.row_free_positions();
    let mut steps: usize = 0;
    let ghost mut turns: Seq<Turn> = Seq::empty();
    proof {
        assert(turns.take(0) =~= turns);
    }
    while steps < config.max_steps && search.energy != 0
        invariant
            steps <= config.max_steps,
            search.wf(puzzle@),
            lists_free_cells(positions@, puzzle@),
            search.best_energy <= energy_of(origin),
            steps == 0 ==> search.best_state@ == origin && search.energy == energy_of(origin),
            steps > 0 ==> energy_of(origin) != 0,
            turns.len() == steps,
            search.state@ == after_turns(origin, turns),
            search.best_state@ == best_grid(origin, turns),
            is_course(puzzle@, origin, turns),
        decreases config.max_steps - steps,
    {
        let ghost before: Grid = search.state@;
        let ghost best_before: Grid = search.best_state@;
        let ghost earlier: Seq<Turn> = turns;
        steps += 1;
        let proposal: Option<SudokuMove> = propose_swap(puzzle, &positions, rng);
        match proposal {
            Some(m) => {
                search.advance(puzzle, m, schedule, rng);
            },
            None => {},
        }
        schedule.cool();
        proof {
            let taken: bool = proposal matches Some(m) && search.state@ == settled(
                before,
                m,
                true,
            );
            let turn: Turn = (proposal, taken);
            assert(turn_allowed(puzzle@, turn));
            assert(search.state@ == after_turn(before, turn));
            lemma_course_extended(puzzle@, origin, earlier, turn);
            turns = earlier.push(turn);
        }
    }
    let stats: SolveStats = SolveStats { steps, best_energy: search.best_energy };
    let result: (SudokuState, SolveStats) = (search.best_state, stats);
    assert(search_gives(puzzle@, origin, turns, config.max_steps, result.0@, result.1));
    result
}

/// A search from a random state of the puzzle. Where the puzzle leaves no
/// cell free, that state is the solution and the search takes no step.
pub fn solve<S: Schedule>(
    puzzle: &SudokuPuzzle,
    config: &SamplerConfig,
    schedule: &mut S,
    rng: &mut StdRng,
) -> (result: (SudokuState, SolveStats))
    requires
        puzzle.wf(),
    ensures
        exists|start: Grid, turns: Seq<Turn>|
            rows_are_permutations(start) && respects(puzzle@, start) && #[trigger] search_gives(
                puzzle@,
                start,
                turns,
                config.max_steps,
                result.0@,
                result.1,
            ),
        rows_are_permutations(result.0@),
        respects(puzzle@, result.0@),
        result.1.best_energy == energy_of(result.0@),
        result.1.steps <= config.max_steps,
        result.1.best_energy == 0 || result.1.steps == config.max_steps,
        puzzle.solvable() && given_count(puzzle@) == 81 ==> result.1.steps == 0
            && result.1.best_energy == 0,
{
    let start: SudokuState = puzzle.random_initial_state(rng);
    proof {
        if puzzle.solvable() && given_count(puzzle@) == 81 {
            let grid: Grid = choose|grid: Grid| solved(grid) && respects(puzzle@, grid);
            lemma_full_count(puzzle@);
            assert forall|r: int| 0 <= r < 9 implies #[trigger] start@[r] =~= grid[r] by {
                assert(is_permutation(start@[r]) && is_permutation(grid[r]));
                assert forall|c: int| 0 <= c < 9 implies start@[r][c] == grid[r][c] by {
                    assert(puzzle@[r][c] is Some);
                }
            }
            assert(start@ =~= grid);
            lemma_solved_has_no_energy(grid);
        }
    }
    solve_from(puzzle, start, config, schedule, rng)
}

} // verus!
