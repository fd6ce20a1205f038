//! Making puzzles: a solved board from a fixed pattern, shuffled in the ways
//! that keep it solved, and then emptied of some cells.
use crate::grid::{block, column, grid_of, is_digit, is_permutation, solved, Grid};
use crate::random::{lemma_rearranged, shuffle};
use crate::sudoku::{
    given_count, givens_of, lemma_full_count, lemma_given_count_row, lemma_givens_in_freed,
    lemma_solvable_is_wf, respects, Givens, SudokuPuzzle,
};
use rand::rngs::StdRng;
use vstd::prelude::*;

verus! {

/// The place in the digit order that the base pattern gives to a cell.
pub open spec fn pattern_of(row: int, col: int) -> int {
    (3 * (row % 3) + row / 3 + col) % 9
}

/// An order of the nine lines of a board that keeps the lines of a band
/// together: each line occurs once, and two lines stand in one band of the
/// order exactly if they come from one band.
pub open spec fn banded(order: Seq<usize>) -> bool {
    &&& order.len() == 9
    &&& forall|i: int| 0 <= i < 9 ==> #[trigger] order[i] < 9
    &&& forall|i: int, j: int|
        0 <= i < j < 9 ==> #[trigger] order[i] != #[trigger] order[j] && (i / 3 == j / 3
            <==> order[i] / 3 == order[j] / 3)
}

/// Within a row the pattern gives every column its own place.
proof fn lemma_pattern_along_row(row: int, c1: int, c2: int)
    requires
        0 <= row < 9,
        0 <= c1 < 9,
        0 <= c2 < 9,
        c1 != c2,
    ensures
        pattern_of(row, c1) != pattern_of(row, c2),
        0 <= pattern_of(row, c1) < 9,
{
}

/// Within a column the pattern gives every row its own place.
proof fn lemma_pattern_along_column(r1: int, r2: int, col: int)
    requires
        0 <= r1 < 9,
        0 <= r2 < 9,
        0 <= col < 9,
        r1 != r2,
    ensures
        pattern_of(r1, col) != pattern_of(r2, col),
{
}

/// Within a box the pattern gives every cell its own place.
proof fn lemma_pattern_in_box(r1: int, c1: int, r2: int, c2: int)
    requires
        0 <= r1 < 9,
        0 <= r2 < 9,
        0 <= c1 < 9,
        0 <= c2 < 9,
        r1 / 3 == r2 / 3,
        c1 / 3 == c2 / 3,
        r1 != r2 || c1 != c2,
    ensures
        pattern_of(r1, c1) != pattern_of(r2, c2),
{
}

/// The place in the digit order that the base pattern gives to a cell.
pub fn pattern(row: usize, col: usize) -> (place: usize)
    requires
        3 * (row % 3) + row / 3 + col <= usize::MAX,
    ensures
        place == pattern_of(row as int, col as int),
        place < 9,
{
    (3 * (row % 3) + row / 3 + col) % 9
}

fn shuffled_three(rng: &mut StdRng) -> (items: Vec<usize>)
    ensures
        items@.len() == 3,
        items@.no_duplicates(),
        forall|k: int| 0 <= k < 3 ==> #[trigger] items@[k] < 3,
{
    let mut items: Vec<usize> = Vec::new();
    items.push(0);
    items.push(1);
    items.push(2);
    let ghost ordered: Seq<usize> = items@;
    shuffle(&mut items, rng);
    proof {
        lemma_rearranged(ordered, items@);
        assert forall|k: int| 0 <= k < 3 implies #[trigger] items@[k] < 3 by {
            assert(items@.contains(items@[k]));
            let j: int = choose|j: int| 0 <= j < ordered.len() && ordered[j] == items@[k];
        }
    }
    items
}

/// A random order of the lines that keeps bands together: the bands in a
/// random order, and the lines of each band in a random order.
fn banded_order(rng: &mut StdRng) -> (order: Vec<usize>)
    ensures
        banded(order@),
{
    let bands: Vec<usize> = shuffled_three(rng);
    let mut order: Vec<usize> = Vec::new();
    let mut b: usize = 0;
    while b < 3
        invariant
            b <= 3,
            bands@.len() == 3,
            bands@.no_duplicates(),
            forall|k: int| 0 <= k < 3 ==> #[trigger] bands@[k] < 3,
            order@.len() == 3 * b,
            forall|i: int|
                0 <= i < order@.len() ==> #[trigger] order@[i] < 9 && order@[i] / 3 == bands@[i
                    / 3],
            forall|i: int, j: int|
                0 <= i < j < order@.len() ==> #[trigger] order@[i] != #[trigger] order@[j],
        decreases 3 - b,
    {
        let band: usize = bands[b];
        let offsets: Vec<usize> = shuffled_three(rng);
        let ghost before: Seq<usize> = order@;
        order.push(band * 3 + offsets[0]);
        order.push(band * 3 + offsets[1]);
        order.push(band * 3 + offsets[2]);
        proof {
            assert(offsets@[0] != offsets@[1] && offsets@[0] != offsets@[2] && offsets@[1]
                != offsets@[2]);
            assert forall|i: int, j: int| 0 <= i < j < order@.len() implies #[trigger] order@[i]
                != #[trigger] order@[j] by {
                if j < before.len() {
                    assert(before[i] != before[j]);
                } else if i < before.len() {
                    assert(before[i] / 3 == bands@[i / 3]);
                    assert(bands@[i / 3] != bands@[b as int]);
                }
            }
        }
        b += 1;
    }
    proof {
        assert forall|i: int, j: int| 0 <= i < j < 9 implies (i / 3 == j / 3 <==> order@[i] / 3
            == order@[j] / 3) by {
            assert(order@[i] / 3 == bands@[i / 3]);
            assert(order@[j] / 3 == bands@[j / 3]);
            if i / 3 != j / 3 {
                assert(bands@[i / 3] != bands@[j / 3]);
            }
        }
    }
    order
}

fn shuffled_digits(rng: &mut StdRng) -> (digits: Vec<u8>)
    ensures
        is_permutation(digits@),
{
    let mut digits: Vec<u8> = Vec::new();
    let mut digit: u8 = 1;
    while digit < 10
        invariant
            1 <= digit <= 10,
            digits@.len() == digit - 1,
            forall|k: int| 0 <= k < digits@.len() ==> #[trigger] digits@[k] == k + 1,
        decreases 10 - digit,
    {
        digits.push(digit);
        digit += 1;
    }
    let ghost ordered: Seq<u8> = digits@;
    shuffle(&mut digits, rng);
    proof {
        lemma_rearranged(ordered, digits@);
        assert forall|k: int| 0 <= k < 9 implies is_digit(#[trigger] digits@[k]) by {
            assert(digits@.contains(digits@[k]));
            let j: int = choose|j: int| 0 <= j < ordered.len() && ordered[j] == digits@[k];
        }
    }
    digits
}

/// Whether `grid` is the base pattern with its lines taken in the orders
/// `rows` and `cols` and its places filled from `digits`.
pub open spec fn laid_out(grid: Grid, rows: Seq<usize>, cols: Seq<usize>, digits: Seq<u8>) -> bool {
    &&& grid.len() == 9
    &&& forall|i: int| 0 <= i < 9 ==> (#[trigger] grid[i]).len() == 9
    &&& forall|i: int, j: int|
        0 <= i < 9 && 0 <= j < 9 ==> #[trigger] grid[i][j] == digits[pattern_of(
            rows[i] as int,
            cols[j] as int,
        )]
}

proof fn lemma_laid_out_is_solved(grid: Grid, rows: Seq<usize>, cols: Seq<usize>, digits: Seq<u8>)
    requires
        laid_out(grid, rows, cols, digits),
        banded(rows),
        banded(cols),
        is_permutation(digits),
    ensures
        solved(grid),
{
    assert forall|i: int, j: int| 0 <= i < 9 && 0 <= j < 9 implies is_digit(
        #[trigger] grid[i][j],
    ) by {
        lemma_pattern_along_row(rows[i] as int, cols[j] as int, (cols[j] + 1) % 9);
    }
    assert forall|r: int| 0 <= r < 9 implies is_permutation(#[trigger] grid[r]) by {
        let line: Seq<u8> = grid[r];
        assert forall|i: int| 0 <= i < 9 implies is_digit(#[trigger] line[i]) by {
            assert(is_digit(grid[r][i]));
        }
        assert forall|i: int, j: int| 0 <= i < 9 && 0 <= j < 9 && i != j implies line[i]
            != line[j] by {
            assert(cols[i] != cols[j]);
            lemma_pattern_along_row(rows[r] as int, cols[i] as int, cols[j] as int);
            lemma_pattern_along_row(rows[r] as int, cols[j] as int, cols[i] as int);
            assert(grid[r][i] != grid[r][j]);
        }
    }
    assert forall|c: int| 0 <= c < 9 implies is_permutation(#[trigger] column(grid, c)) by {
        let line: Seq<u8> = column(grid, c);
        assert forall|i: int| 0 <= i < 9 implies is_digit(#[trigger] line[i]) by {
            assert(is_digit(grid[i][c]));
        }
        assert forall|i: int, j: int| 0 <= i < 9 && 0 <= j < 9 && i != j implies line[i]
            != line[j] by {
            assert(rows[i] != rows[j]);
            lemma_pattern_along_column(rows[i] as int, rows[j] as int, cols[c] as int);
            lemma_pattern_along_row(rows[i] as int, cols[c] as int, (cols[c] + 1) % 9);
            lemma_pattern_along_row(rows[j] as int, cols[c] as int, (cols[c] + 1) % 9);
            assert(grid[i][c] != grid[j][c]);
        }
    }
    assert forall|b: int| 0 <= b < 9 implies is_permutation(#[trigger] block(grid, b)) by {
        let line: Seq<u8> = block(grid, b);
        assert forall|k: int| 0 <= k < 9 implies is_digit(#[trigger] line[k]) by {
            assert(is_digit(grid[3 * (b / 3) + k / 3][3 * (b % 3) + k % 3]));
        }
        assert forall|k: int, n: int| 0 <= k < 9 && 0 <= n < 9 && k != n implies line[k]
            != line[n] by {
            let r1: int = 3 * (b / 3) + k / 3;
            let c1: int = 3 * (b % 3) + k % 3;
            let r2: int = 3 * (b / 3) + n / 3;
            let c2: int = 3 * (b % 3) + n % 3;
            assert(r1 != r2 || c1 != c2);
            if r1 != r2 {
                assert(rows[r1] != rows[r2]);
                assert(rows[r1] / 3 == rows[r2] / 3);
            }
            if c1 != c2 {
                assert(cols[c1] != cols[c2]);
                assert(cols[c1] / 3 == cols[c2] / 3);
            }
            lemma_pattern_in_box(
                rows[r1] as int,
                cols[c1] as int,
                rows[r2] as int,
                cols[c2] as int,
            );
            lemma_pattern_along_row(rows[r1] as int, cols[c1] as int, (cols[c1] + 1) % 9);
            lemma_pattern_along_row(rows[r2] as int, cols[c2] as int, (cols[c2] + 1) % 9);
            assert(grid[r1][c1] != grid[r2][c2]);
        }
    }
}

/// Whether `grid` is the base pattern with its bands, the lines of its bands
/// and its digits in some order.
pub open spec fn from_pattern(grid: Grid) -> bool {
    exists|rows: Seq<usize>, cols: Seq<usize>, digits: Seq<u8>|
        banded(rows) && banded(cols) && is_permutation(digits) && #[trigger] laid_out(
            grid,
            rows,
            cols,
            digits,
        )
}

/// However the base pattern is shuffled, it stays a solved board.
pub proof fn lemma_from_pattern_is_solved(grid: Grid)
    requires
        from_pattern(grid),
    ensures
        solved(grid),
{
    let (rows, cols, digits): (Seq<usize>, Seq<usize>, Seq<u8>) = choose|
        rows: Seq<usize>,
        cols: Seq<usize>,
        digits: Seq<u8>,
    |
        banded(rows) && banded(cols) && is_permutation(digits) && #[trigger] laid_out(
            grid,
            rows,
            cols,
            digits,
        );
    lemma_laid_out_is_solved(grid, rows, cols, digits);
}

/// A random solved board: the base pattern with its bands, the lines of its
/// bands and its digits shuffled.
pub fn generate_full_solution(rng: &mut StdRng) -> (board: [[u8; 9]; 9])
    ensures
        from_pattern(grid_of(board)),
        solved(grid_of(board)),
{
    let rows: Vec<usize> = banded_order(rng);
    let cols: Vec<usize> = banded_order(rng);
    let digits: Vec<u8> = shuffled_digits(rng);
    let mut board: [[u8; 9]; 9] = [[0u8;9];9];
    let mut i: usize = 0;
    while i < 9
        invariant
            i <= 9,
            banded(rows@),
            banded(cols@),
            is_permutation(digits@),
            forall|r: int, c: int|
                0 <= r < i && 0 <= c < 9 ==> #[trigger] grid_of(board)[r][c] == digits@[pattern_of(
                    rows@[r] as int,
                    cols@[c] as int,
                )],
        decreases 9 - i,
    {
        let mut j: usize = 0;
        while j < 9
            invariant
                i < 9,
                j <= 9,
                banded(rows@),
                banded(cols@),
                is_permutation(digits@),
                forall|r: int, c: int|
                    ((0 <= r < i && 0 <= c < 9) || (r == i && 0 <= c < j)) ==> #[trigger] grid_of(
                        board,
                    )[r][c] == digits@[pattern_of(rows@[r] as int, cols@[c] as int)],
            decreases 9 - j,
        {
            let place: usize = pattern(rows[i], cols[j]);
            let ghost filled: Grid = grid_of(board);
            board[i][j] = digits[place];
            proof {
                assert forall|r: int, c: int|
                    ((0 <= r < i && 0 <= c < 9) || (r == i && 0 <= c < j)) implies #[trigger] grid_of(
                    board,
                )[r][c] == filled[r][c] by {}
            }
            j += 1;
        }
        i += 1;
    }
    proof {
        assert(laid_out(grid_of(board), rows@, cols@, digits@));
        lemma_from_pattern_is_solved(grid_of(board));
    }
    board
}

/// The cells of the board, row by row.
fn all_cells() -> (cells: Vec<(usize, usize)>)
    ensures
        cells@.len() == 81,
        cells@.no_duplicates(),
        forall|k: int| 0 <= k < 81 ==> (#[trigger] cells@[k]).0 < 9 && cells@[k].1 < 9,
{
    let mut cells: Vec<(usize, usize)> = Vec::new();
    let mut row: usize = 0;
    while row < 9
        invariant
            row <= 9,
            cells@.len() == 9 * row,
            forall|k: int| 0 <= k < cells@.len() ==> #[trigger] cells@[k] == ((k / 9) as usize, (k
                % 9) as usize),
        decreases 9 - row,
    {
        let mut col: usize = 0;
        while col < 9
            invariant
                row < 9,
                col <= 9,
                cells@.len() == 9 * row + col,
                forall|k: int|
                    0 <= k < cells@.len() ==> #[trigger] cells@[k] == ((k / 9) as usize, (k
                        % 9) as usize),
            decreases 9 - col,
        {
            cells.push((row, col));
            col += 1;
        }
        row += 1;
    }
    cells
}

impl SudokuPuzzle {
    /// A puzzle with `holes` free cells, or with none given if `holes` is
    /// more than the board has: a random solved board from which that many
    /// cells, picked at random, are taken out.
    pub fn with_random_holes(holes: usize, rng: &mut StdRng) -> (puzzle: SudokuPuzzle)
        ensures
            exists|grid: Grid| from_pattern(grid) && #[trigger] respects(puzzle@, grid),
            puzzle.solvable(),
            puzzle.wf(),
            given_count(puzzle@) == 81 - if holes < 81 {
                holes as int
            } else {
                81
            },
    {
        let solution: [[u8; 9]; 9] = generate_full_solution(rng);
        let ghost full: Grid = grid_of(solution);
        let mut givens: [[Option<u8>; 9]; 9] = [[None;9];9];
        let mut row: usize = 0;
        while row < 9
            invariant
                row <= 9,
                full == grid_of(solution),
                forall|r: int, c: int|
                    0 <= r < row && 0 <= c < 9 ==> #[trigger] givens_of(givens)[r][c] == Some(
                        full[r][c],
                    ),
            decreases 9 - row,
        {
            let mut col: usize = 0;
            while col < 9
                invariant
                    row < 9,
                    col <= 9,
                    full == grid_of(solution),
                    forall|r: int, c: int|
                        ((0 <= r < row && 0 <= c < 9) || (r == row && 0 <= c < col))
                            ==> #[trigger] givens_of(givens)[r][c] == Some(full[r][c]),
                decreases 9 - col,
            {
                let ghost filled: Givens = givens_of(givens);
                givens[row][col] = Some(solution[row][col]);
                proof {
                    assert forall|r: int, c: int|
                        ((0 <= r < row && 0 <= c < 9) || (r == row && 0 <= c < col))
                        implies #[trigger] givens_of(givens)[r][c] == filled[r][c] by {}
                }
                col += 1;
            }
            row += 1;
        }
        let mut cells: Vec<(usize, usize)> = all_cells();
        let ghost ordered: Seq<(usize, usize)> = cells@;
        shuffle(&mut cells, rng);
        proof {
            lemma_rearranged(ordered, cells@);
            assert forall|k: int| 0 <= k < 81 implies (#[trigger] cells@[k]).0 < 9 && cells@[k].1
                < 9 by {
                assert(cells@.contains(cells@[k]));
                let j: int = choose|j: int| 0 <= j < ordered.len() && ordered[j] == cells@[k];
                assert(ordered[j].0 < 9);
            }
            lemma_full_count(givens_of(givens));
        }
        let removed: usize = if holes < 81 {
            holes
        } else {
            81
        };
        let mut k: usize = 0;
        while k < removed
            invariant
                k <= removed <= 81,
                cells@.len() == 81,
                cells@.no_duplicates(),
                forall|j: int| 0 <= j < 81 ==> (#[trigger] cells@[j]).0 < 9 && cells@[j].1 < 9,
                forall|r: int, c: int|
                    0 <= r < 9 && 0 <= c < 9 && (#[trigger] givens_of(givens)[r][c]) is Some
                        ==> givens_of(givens)[r][c] == Some(full[r][c]),
                forall|r: int, c: int|
                    0 <= r < 9 && 0 <= c < 9 && (#[trigger] givens_of(givens)[r][c]) is None
                        ==> exists|j: int|
                        0 <= j < k && cells@[j] == (r as usize, c as usize),
                given_count(givens_of(givens)) == 81 - k,
            decreases removed - k,
        {
            let cell: (usize, usize) = cells[k];
            let ghost before: Givens = givens_of(givens);
            proof {
                if before[cell.0 as int][cell.1 as int] is None {
                    let j: int = choose|j: int| 0 <= j < k && cells@[j] == cell;
                    assert(cells@[j] != cells@[k as int]);
                }
                lemma_givens_in_freed(before[cell.0 as int], cell.1 as int);
                lemma_given_count_row(
                    before,
                    9,
                    cell.0 as int,
                    before[cell.0 as int].update(cell.1 as int, None),
                );
            }
            givens[cell.0][cell.1] = None;
            proof {
                let after: Givens = givens_of(givens);
                assert(after =~~= before.update(
                    cell.0 as int,
                    before[cell.0 as int].update(cell.1 as int, None),
                ));
                assert forall|r: int, c: int|
                    0 <= r < 9 && 0 <= c < 9 && (#[trigger] after[r][c]) is None implies exists|
                    j: int,
                | 0 <= j < k + 1 && cells@[j] == (r as usize, c as usize) by {
                    if r == cell.0 && c == cell.1 {
                        assert(cells@[k as int] == (r as usize, c as usize));
                    } else {
                        assert(before[r][c] is None);
                        let j: int = choose|j: int|
                            0 <= j < k && cells@[j] == (r as usize, c as usize);
                        assert(cells@[j] == (r as usize, c as usize));
                    }
                }
                assert forall|r: int, c: int|
                    0 <= r < 9 && 0 <= c < 9 && (#[trigger] after[r][c]) is Some implies after[r][c]
                    == Some(full[r][c]) by {
                    assert(before[r][c] is Some);
                }
            }
            k += 1;
        }
        let puzzle: SudokuPuzzle = SudokuPuzzle { givens };
        proof {
            assert(respects(puzzle@, full));
            lemma_solvable_is_wf(puzzle);
        }
        puzzle
    }
}

} // verus!
