use sudoku_solver::grid::Board;
use sudoku_solver::solution::is_well_formed;

fn solution() -> Board {
    [
        [5, 3, 4, 6, 7, 8, 9, 1, 2],
        [6, 7, 2, 1, 9, 5, 3, 4, 8],
        [1, 9, 8, 3, 4, 2, 5, 6, 7],
        [8, 5, 9, 7, 6, 1, 4, 2, 3],
        [4, 2, 6, 8, 5, 3, 7, 9, 1],
        [7, 1, 3, 9, 2, 4, 8, 5, 6],
        [9, 6, 1, 5, 3, 7, 2, 8, 4],
        [2, 8, 7, 4, 1, 9, 6, 3, 5],
        [3, 4, 5, 2, 8, 6, 1, 7, 9],
    ]
}

fn related(a: (usize, usize), b: (usize, usize)) -> bool {
    a.0 == b.0 || a.1 == b.1 || (a.0 / 3 == b.0 / 3 && a.1 / 3 == b.1 / 3)
}

#[test]
fn empty_and_solved_boards_are_well_formed() {
    assert!(is_well_formed(&[[0; 9]; 9]));
    assert!(is_well_formed(&solution()));
}

#[test]
fn a_value_above_nine_is_a_defect() {
    for v in [10, 11, 100, usize::MAX] {
        let mut b: Board = [[0; 9]; 9];
        b[4][7] = v;
        assert!(!is_well_formed(&b));
    }
    let mut nine: Board = [[0; 9]; 9];
    nine[4][7] = 9;
    assert!(is_well_formed(&nine));
}

#[test]
fn two_equal_values_are_a_defect_exactly_where_the_cells_are_related() {
    for a in 0..81 {
        for b in 0..81 {
            if a == b {
                continue;
            }
            let (p, q) = ((a / 9, a % 9), (b / 9, b % 9));
            let mut board: Board = [[0; 9]; 9];
            board[p.0][p.1] = 6;
            board[q.0][q.1] = 6;
            assert_eq!(is_well_formed(&board), !related(p, q));
            board[q.0][q.1] = 7;
            assert!(is_well_formed(&board));
        }
    }
}

#[test]
fn one_changed_cell_spoils_a_solved_board() {
    let s = solution();
    for r in 0..9 {
        for c in 0..9 {
            let mut b = s;
            b[r][c] = s[r][c] % 9 + 1;
            assert!(!is_well_formed(&b));
            b[r][c] = 0;
            assert!(is_well_formed(&b));
        }
    }
}
