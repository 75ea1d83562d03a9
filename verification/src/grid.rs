//! The grid, its mathematical model, and the legality predicate.

use vstd::prelude::*;

verus! {

/// Side length of the grid.
pub const N: usize = 9;

/// Side length of a block.
pub const N_ROOT: usize = 3;

/// The 9×9 value matrix: `0` is an empty cell, `1..=9` a fixed value.
pub type Board = [[usize; N]; N];

/// A cell coordinate: `x` is the row, `y` the column, both counted from 0.
#[derive(Clone, Copy, Debug, PartialEq, Eq)]
pub struct Cell {
    pub x: usize,
    pub y: usize,
}

impl Cell {
    /// The coordinate lies on the grid.
    pub open spec fn on_grid(&self) -> bool {
        self.x < N && self.y < N
    }
}

/// The model of a board: nine rows of nine integers.
pub open spec fn grid(board: Board) -> Seq<Seq<int>> {
    Seq::new(9, |r: int| Seq::new(9, |c: int| board[r][c] as int))
}

/// The model of an answer: the grid of the board, if there is one.
pub open spec fn answer(found: Option<Board>) -> Option<Seq<Seq<int>>> {
    match found {
        Some(b) => Some(grid(b)),
        None => None,
    }
}

/// `(r, c)` names a cell of the grid.
pub open spec fn on_grid(r: int, c: int) -> bool {
    0 <= r < 9 && 0 <= c < 9
}

/// `g` has nine rows of nine cells.
pub open spec fn shaped(g: Seq<Seq<int>>) -> bool {
    &&& g.len() == 9
    &&& forall|r: int| 0 <= r < 9 ==> (#[trigger] g[r]).len() == 9
}

/// The value of `g` at row `r`, column `c`.
pub open spec fn value_at(g: Seq<Seq<int>>, r: int, c: int) -> int {
    g[r][c]
}

/// Value `v` occurs somewhere in row `r`.
pub open spec fn in_row(g: Seq<Seq<int>>, r: int, v: int) -> bool {
    exists|j: int| 0 <= j < 9 && #[trigger] value_at(g, r, j) == v
}

/// Value `v` occurs somewhere in column `c`.
pub open spec fn in_column(g: Seq<Seq<int>>, c: int, v: int) -> bool {
    exists|i: int| 0 <= i < 9 && #[trigger] value_at(g, i, c) == v
}

/// Value `v` occurs somewhere in the 3×3 block that holds `(r, c)`.
pub open spec fn in_block(g: Seq<Seq<int>>, r: int, c: int, v: int) -> bool {
    exists|i: int, j: int|
        on_grid(i, j) && i / 3 == r / 3 && j / 3 == c / 3 && #[trigger] value_at(g, i, j) == v
}

/// The legality rule: `v` is a value (not the empty marker) that occurs
/// neither in the row, nor in the column, nor in the block of `(r, c)`.
pub open spec fn allowed(g: Seq<Seq<int>>, r: int, c: int, v: int) -> bool {
    &&& v != 0
    &&& !in_row(g, r, v)
    &&& !in_column(g, c, v)
    &&& !in_block(g, r, c, v)
}

/// Two cells constrain each other: they share a row, a column or a block.
/// A cell is related to itself.
pub open spec fn related(r1: int, c1: int, r2: int, c2: int) -> bool {
    r1 == r2 || c1 == c2 || (r1 / 3 == r2 / 3 && c1 / 3 == c2 / 3)
}

/// Two distinct cells that share a row, a column or a block.
pub open spec fn peers(r1: int, c1: int, r2: int, c2: int) -> bool {
    related(r1, c1, r2, c2) && !(r1 == r2 && c1 == c2)
}

/// The legality rule read cell by cell: `v` is allowed at `(r, c)` exactly
/// when it is a value and no related cell of the grid holds it.
pub proof fn lemma_allowed_by_cells(g: Seq<Seq<int>>, r: int, c: int, v: int)
    requires
        on_grid(r, c),
    ensures
        allowed(g, r, c, v) <==> (v != 0 && forall|i: int, j: int|
            on_grid(i, j) && related(r, c, i, j) ==> #[trigger] value_at(g, i, j) != v),
{
    if allowed(g, r, c, v) {
        assert forall|i: int, j: int| on_grid(i, j) && related(r, c, i, j) implies #[trigger] value_at(
            g,
            i,
            j,
        ) != v by {
            if value_at(g, i, j) == v {
                if i == r {
                    assert(in_row(g, r, v));
                } else if j == c {
                    assert(in_column(g, c, v));
                } else {
                    assert(in_block(g, r, c, v));
                }
            }
        }
    }
}

/// Whether `num` already stands in the 3×3 block of `cell`.
pub fn is_in_a_section(board: &Board, cell: &Cell, num: usize) -> (found: bool)
    requires
        cell.on_grid(),
    ensures
        found == in_block(grid(*board), cell.x as int, cell.y as int, num as int),
{
    let row: usize = cell.x;
    let col: usize = cell.y;
    let start_row: usize = (row / N_ROOT) * N_ROOT;
    let start_column: usize = (col / N_ROOT) * N_ROOT;
    let ghost g = grid(*board);

    let mut n: usize = start_row;
    while n < start_row + N_ROOT
        invariant
            row == cell.x < 9,
            col == cell.y < 9,
            start_row == (row / 3) * 3,
            start_column == (col / 3) * 3,
            start_row <= n <= start_row + 3,
            g == grid(*board),
            forall|i: int, j: int|
                start_row <= i < n && start_column <= j < start_column + 3
                    ==> #[trigger] value_at(g, i, j) != num,
        decreases start_row + 3 - n,
    {
        let mut m: usize = start_column;
        while m < start_column + N_ROOT
            invariant
                row == cell.x < 9,
                col == cell.y < 9,
                start_row == (row / 3) * 3,
                start_column == (col / 3) * 3,
                start_row <= n < start_row + 3,
                start_column <= m <= start_column + 3,
                g == grid(*board),
                forall|i: int, j: int|
                    start_row <= i < n && start_column <= j < start_column + 3
                        ==> #[trigger] value_at(g, i, j) != num,
                forall|j: int| start_column <= j < m ==> #[trigger] value_at(g, n as int, j) != num,
            decreases start_column + 3 - m,
        {
            if board[n][m] == num {
                assert(value_at(g, n as int, m as int) == num);
                assert(on_grid(n as int, m as int));
                assert(n as int / 3 == row as int / 3 && m as int / 3 == col as int / 3);
                return true;
            }
            m += 1;
        }
        n += 1;
    }
    assert forall|i: int, j: int|
        on_grid(i, j) && i / 3 == row as int / 3 && j / 3 == col as int / 3 implies #[trigger] value_at(
        g,
        i,
        j,
    ) != num by {
        assert(start_row <= i < start_row + 3);
        assert(start_column <= j < start_column + 3);
    }
    false
}

/// The legality predicate: may `num` stand at `cell`, given what the board
/// holds now? False for the empty marker `0`, and false when `num` already
/// occurs in the cell's row, column or block.
pub fn is_allowed(board: &Board, cell: &Cell, num: usize) -> (ok: bool)
    requires
        cell.on_grid(),
    ensures
        ok == allowed(grid(*board), cell.x as int, cell.y as int, num as int),
{
    if num == 0 {
        return false;
    }
    let row: usize = cell.x;
    let col: usize = cell.y;
    let ghost g = grid(*board);

    let mut n: usize = 0;
    while n < N
        invariant
            row == cell.x < 9,
            col == cell.y < 9,
            n <= 9,
            g == grid(*board),
            forall|i: int| 0 <= i < n ==> #[trigger] value_at(g, i, col as int) != num,
            forall|j: int| 0 <= j < n ==> #[trigger] value_at(g, row as int, j) != num,
        decreases 9 - n,
    {
        if board[n][col] == num || board[row][n] == num {
            assert(value_at(g, n as int, col as int) == num || value_at(g, row as int, n as int)
                == num);
            return false;
        }
        n += 1;
    }
    !is_in_a_section(board, cell, num)
}

/// Whether a value placed at `placed` constrains `target`: the two share a
/// row, a column or a block. Blocks are compared by block coordinate.
pub fn affects_cell(placed: &Cell, target: &Cell) -> (hit: bool)
    ensures
        hit == related(placed.x as int, placed.y as int, target.x as int, target.y as int),
{
    if placed.x == target.x || placed.y == target.y {
        return true;
    }
    let placed_block_x: usize = placed.x / N_ROOT;
    let placed_block_y: usize = placed.y / N_ROOT;
    let target_block_x: usize = target.x / N_ROOT;
    let target_block_y: usize = target.y / N_ROOT;

    placed_block_x == target_block_x && placed_block_y == target_block_y
}

} // verus!
