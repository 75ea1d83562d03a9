use sudoku_solver::grid::Board;
use sudoku_solver::search::{solve_state, SudokuGameProperties};

fn puzzle() -> Board {
    [
        [5, 3, 0, 0, 7, 0, 0, 0, 0],
        [6, 0, 0, 1, 9, 5, 0, 0, 0],
        [0, 9, 8, 0, 0, 0, 0, 6, 0],
        [8, 0, 0, 0, 6, 0, 0, 0, 3],
        [4, 0, 0, 8, 0, 3, 0, 0, 1],
        [7, 0, 0, 0, 2, 0, 0, 0, 6],
        [0, 6, 0, 0, 0, 0, 2, 8, 0],
        [0, 0, 0, 4, 1, 9, 0, 0, 5],
        [0, 0, 0, 0, 8, 0, 0, 7, 9],
    ]
}

fn solution() -> Board {
    [
        [5, 3, 4, 6, 7, 8, 9, 1, 2],
        [6, 7, 2, 1, 9, 5, 3, 4, 8],
        [1, 9, 8, 3, 4, 2, 5, 6, 7],
        [8, 5, 9, 7, 6, 1, 4, 2, 3],
        [4, 2, 6, 8, 5, 3, 7, 9, 1],
        [7, 1, 3, 9, 2, 4, 8, 5, 6],
        [9, 6, 1, 5, 3, 7, 2, 8, 4],
        [2, 8, 7, 4, 1, 9, 6, 3, 5],
        [3, 4, 5, 2, 8, 6, 1, 7, 9],
    ]
}

fn solved(b: &Board) -> bool {
    for i in 0..9 {
        let mut row = [false; 10];
        let mut col = [false; 10];
        let mut block = [false; 10];
        for j in 0..9 {
            let cells = [b[i][j], b[j][i], b[(i / 3) * 3 + j / 3][(i % 3) * 3 + j % 3]];
            if cells.iter().any(|&v| v < 1 || v > 9) {
                return false;
            }
            if row[cells[0]] || col[cells[1]] || block[cells[2]] {
                return false;
            }
            row[cells[0]] = true;
            col[cells[1]] = true;
            block[cells[2]] = true;
        }
    }
    true
}

#[test]
fn state_starts_with_the_board_and_its_entries() {
    let s = SudokuGameProperties::new(puzzle()).unwrap();
    assert_eq!(s.board(), puzzle());
    assert_eq!(s.cells_possibilities().len(), 51);
    assert_eq!(
        *s.cells_possibilities(),
        sudoku_solver::candidates::find_all_possibilities_by_cell(puzzle())
    );
}

#[test]
fn clone_is_an_equal_and_independent_state() {
    let s = SudokuGameProperties::new(puzzle()).unwrap();
    let t = s.clone();
    assert_eq!(s, t);
    let child = t.branch(25, 5);
    assert_ne!(child, s);
    assert_eq!(s.board(), puzzle());
}

#[test]
fn branch_places_the_value_and_propagates() {
    let s = SudokuGameProperties::new(puzzle()).unwrap();
    let e = s.cells_possibilities()[25];
    assert_eq!((e.x, e.y), (4, 4));
    let child = s.branch(25, 5);
    let mut want = puzzle();
    want[4][4] = 5;
    assert_eq!(child.board(), want);
    assert_eq!(child, SudokuGameProperties::new(want).unwrap());
    assert_eq!(child.cells_possibilities().len(), 50);
}

#[test]
fn solves_the_known_puzzle() {
    let found = solve_state(SudokuGameProperties::new(puzzle()).unwrap());
    assert_eq!(found, Some(solution()));
}

#[test]
fn a_full_grid_is_its_own_answer() {
    assert_eq!(solve_state(SudokuGameProperties::new(solution()).unwrap()), Some(solution()));
}

#[test]
fn single_clue_grid_is_filled_and_keeps_the_clue() {
    let mut b: Board = [[0; 9]; 9];
    b[0][0] = 1;
    let found = solve_state(SudokuGameProperties::new(b).unwrap()).unwrap();
    assert!(solved(&found));
    assert_eq!(found[0][0], 1);
    let want: Board = [
        [1, 2, 3, 4, 5, 6, 7, 8, 9],
        [4, 5, 6, 7, 8, 9, 1, 2, 3],
        [7, 8, 9, 1, 2, 3, 4, 5, 6],
        [2, 3, 1, 6, 7, 4, 8, 9, 5],
        [8, 7, 5, 9, 1, 2, 3, 6, 4],
        [6, 9, 4, 5, 3, 8, 2, 1, 7],
        [3, 1, 7, 2, 6, 5, 9, 4, 8],
        [5, 4, 2, 8, 9, 7, 6, 3, 1],
        [9, 6, 8, 3, 4, 1, 5, 7, 2],
    ];
    assert_eq!(found, want);
}

#[test]
fn eight_clue_grid_gets_the_first_filling_in_search_order() {
    let mut b: Board = [[0; 9]; 9];
    let clues = [
        (0, 0, 5),
        (1, 4, 3),
        (2, 8, 7),
        (3, 2, 1),
        (4, 6, 9),
        (5, 1, 8),
        (7, 3, 2),
        (8, 7, 4),
    ];
    for (r, c, v) in clues {
        b[r][c] = v;
    }
    let found = solve_state(SudokuGameProperties::new(b).unwrap()).unwrap();
    assert!(solved(&found));
    for (r, c, v) in clues {
        assert_eq!(found[r][c], v);
    }
    let want: Board = [
        [5, 3, 6, 7, 8, 9, 2, 1, 4],
        [8, 1, 7, 4, 3, 2, 5, 6, 9],
        [9, 2, 4, 1, 5, 6, 3, 8, 7],
        [3, 6, 1, 5, 9, 4, 7, 2, 8],
        [2, 4, 5, 8, 1, 7, 9, 3, 6],
        [7, 8, 9, 6, 2, 3, 4, 5, 1],
        [4, 5, 2, 9, 6, 1, 8, 7, 3],
        [6, 7, 3, 2, 4, 8, 1, 9, 5],
        [1, 9, 8, 3, 7, 5, 6, 4, 2],
    ];
    assert_eq!(found, want);
}

#[test]
fn search_is_repeatable() {
    let mut b: Board = [[0; 9]; 9];
    b[0][0] = 1;
    b[1][3] = 1;
    let first = solve_state(SudokuGameProperties::new(b).unwrap());
    let second = solve_state(SudokuGameProperties::new(b).unwrap());
    assert!(first.is_some());
    assert_eq!(first, second);
}

#[test]
fn a_board_with_a_row_conflict_is_refused() {
    let mut b = puzzle();
    b[0][2] = 5;
    assert!(SudokuGameProperties::new(b).is_none());
}

#[test]
fn a_board_with_a_column_or_block_conflict_is_refused() {
    let mut column = puzzle();
    column[8][0] = 5;
    assert!(SudokuGameProperties::new(column).is_none());
    let mut block = puzzle();
    block[2][0] = 3;
    assert!(SudokuGameProperties::new(block).is_none());
}

#[test]
fn a_board_with_a_value_above_nine_is_refused() {
    let mut b = puzzle();
    b[8][0] = 10;
    assert!(SudokuGameProperties::new(b).is_none());
}

#[test]
fn a_repeated_clue_is_refused_even_where_the_empty_cell_has_a_legal_value() {
    // The 4 stands twice in the first row; the one empty cell could still
    // take a 5.
    let mut b = solution();
    b[0][1] = 4;
    b[4][4] = 0;
    assert!(SudokuGameProperties::new(b).is_none());
}

#[test]
fn a_full_board_with_a_repeated_value_is_refused() {
    let b: Board = [
        [1, 1, 3, 4, 5, 6, 7, 8, 9],
        [4, 5, 6, 7, 8, 9, 1, 2, 3],
        [7, 8, 9, 1, 2, 3, 4, 5, 6],
        [2, 3, 4, 5, 6, 7, 8, 9, 1],
        [5, 6, 7, 8, 9, 1, 2, 3, 4],
        [8, 9, 1, 2, 3, 4, 5, 6, 7],
        [3, 4, 5, 6, 7, 8, 9, 1, 2],
        [6, 7, 8, 9, 1, 2, 3, 4, 5],
        [9, 1, 2, 3, 4, 5, 6, 7, 8],
    ];
    assert!(SudokuGameProperties::new(b).is_none());
}

#[test]
fn a_cell_without_candidates_is_a_dead_end() {
    // No clue is repeated, but the two empty cells have no legal value.
    let mut b = solution();
    b[0][0] = 0;
    b[3][1] = 0;
    b[3][0] = 5;
    let s = SudokuGameProperties::new(b).unwrap();
    assert_eq!(s.cells_possibilities().len(), 2);
    assert!(s.cells_possibilities().iter().all(|e| e.possibles_values.is_empty()));
    assert_eq!(solve_state(s), None);
}

#[test]
fn a_clue_that_fits_but_leads_nowhere_has_no_answer() {
    let mut b = puzzle();
    b[0][2] = 1;
    assert_eq!(solve_state(SudokuGameProperties::new(b).unwrap()), None);
}

#[test]
fn every_answer_is_a_solved_grid_that_keeps_the_clues() {
    let mut sparse: Board = [[0; 9]; 9];
    sparse[0][0] = 1;
    sparse[1][3] = 1;
    for b in [puzzle(), solution(), sparse, [[0; 9]; 9]] {
        let found = solve_state(SudokuGameProperties::new(b).unwrap()).unwrap();
        assert!(solved(&found));
        for r in 0..9 {
            for c in 0..9 {
                assert!(b[r][c] == 0 || found[r][c] == b[r][c]);
            }
        }
    }
}
