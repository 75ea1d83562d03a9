use sudoku_solver::grid::Board;
use sudoku_solver::search::{solve_state, SudokuGameProperties};
use sudoku_solver::work::generate_work;

fn puzzle() -> Board {
    [
        [5, 3, 0, 0, 7, 0, 0, 0, 0],
        [6, 0, 0, 1, 9, 5, 0, 0, 0],
        [0, 9, 8, 0, 0, 0, 0, 6, 0],
        [8, 0, 0, 0, 6, 0, 0, 0, 3],
        [4, 0, 0, 8, 0, 3, 0, 0, 1],
        [7, 0, 0, 0, 2, 0, 0, 0, 6],
        [0, 6, 0, 0, 0, 0, 2, 8, 0],
        [0, 0, 0, 4, 1, 9, 0, 0, 5],
        [0, 0, 0, 0, 8, 0, 0, 7, 9],
    ]
}

fn full() -> Board {
    [
        [5, 3, 4, 6, 7, 8, 9, 1, 2],
        [6, 7, 2, 1, 9, 5, 3, 4, 8],
        [1, 9, 8, 3, 4, 2, 5, 6, 7],
        [8, 5, 9, 7, 6, 1, 4, 2, 3],
        [4, 2, 6, 8, 5, 3, 7, 9, 1],
        [7, 1, 3, 9, 2, 4, 8, 5, 6],
        [9, 6, 1, 5, 3, 7, 2, 8, 4],
        [2, 8, 7, 4, 1, 9, 6, 3, 5],
        [3, 4, 5, 2, 8, 6, 1, 7, 9],
    ]
}

/// No clue is repeated, but the clues cannot all be kept.
fn stuck() -> Board {
    [
        [5, 3, 0, 0, 7, 0, 0, 0, 0],
        [6, 0, 0, 1, 9, 5, 0, 0, 0],
        [0, 9, 8, 0, 0, 0, 0, 6, 0],
        [8, 0, 0, 0, 6, 0, 0, 0, 3],
        [4, 0, 0, 8, 0, 3, 0, 0, 1],
        [0, 0, 0, 0, 2, 0, 0, 0, 6],
        [0, 6, 4, 0, 0, 0, 2, 8, 0],
        [0, 0, 0, 4, 0, 9, 0, 0, 5],
        [0, 0, 0, 0, 8, 0, 0, 7, 9],
    ]
}

fn eight_clues() -> Board {
    let mut b: Board = [[0; 9]; 9];
    for (r, c, v) in [
        (0, 0, 5),
        (1, 4, 3),
        (2, 8, 7),
        (3, 2, 1),
        (4, 6, 9),
        (5, 1, 8),
        (7, 3, 2),
        (8, 7, 4),
    ] {
        b[r][c] = v;
    }
    b
}

fn pool(b: Board, depth: usize) -> Vec<SudokuGameProperties> {
    let mut queue = Vec::new();
    generate_work(SudokuGameProperties::new(b).unwrap(), depth, 0, &mut queue);
    queue
}

#[test]
fn depth_zero_gives_the_root() {
    let q = pool(puzzle(), 0);
    assert_eq!(q, vec![SudokuGameProperties::new(puzzle()).unwrap()]);
}

#[test]
fn pool_sizes_on_the_empty_board() {
    let b: Board = [[0; 9]; 9];
    assert_eq!(pool(b, 1).len(), 9);
    assert_eq!(pool(b, 2).len(), 72);
    assert_eq!(pool(b, 3).len(), 504);
}

#[test]
fn pool_sizes_with_one_clue() {
    let mut b: Board = [[0; 9]; 9];
    b[0][0] = 1;
    assert_eq!(pool(b, 1).len(), 8);
    assert_eq!(pool(b, 2).len(), 56);
    assert_eq!(pool(b, 3).len(), 336);
}

#[test]
fn pool_sizes_with_eight_clues() {
    assert_eq!(pool(eight_clues(), 1).len(), 5);
    assert_eq!(pool(eight_clues(), 2).len(), 25);
    assert_eq!(pool(eight_clues(), 3).len(), 100);
}

#[test]
fn branches_come_in_ascending_order_of_value() {
    let mut b: Board = [[0; 9]; 9];
    b[0][0] = 1;
    let q = pool(b, 1);
    let placed: Vec<usize> = q.iter().map(|s| s.board()[0][1]).collect();
    assert_eq!(placed, vec![2, 3, 4, 5, 6, 7, 8, 9]);
    for s in &q {
        assert_eq!(s.cells_possibilities().len(), 79);
        assert_eq!(s.board()[0][0], 1);
    }
}

#[test]
fn forced_moves_keep_the_pool_at_one_state() {
    let q = pool(puzzle(), 3);
    assert_eq!(q.len(), 1);
    let b = q[0].board();
    assert_eq!(q[0].cells_possibilities().len(), 48);
    assert_eq!(b[4][4], 5);
    for r in 0..9 {
        for c in 0..9 {
            if puzzle()[r][c] != 0 {
                assert_eq!(b[r][c], puzzle()[r][c]);
            }
        }
    }
}

#[test]
fn a_full_grid_stands_for_itself() {
    let q = pool(full(), 3);
    assert_eq!(q, vec![SudokuGameProperties::new(full()).unwrap()]);
}

#[test]
fn a_root_without_legal_branch_is_still_emitted() {
    // No clue is repeated, but the two empty cells have no legal value.
    let mut b = full();
    b[0][0] = 0;
    b[3][1] = 0;
    b[3][0] = 5;
    let q = pool(b, 3);
    assert_eq!(q, vec![SudokuGameProperties::new(b).unwrap()]);
    assert_eq!(q[0].cells_possibilities().len(), 2);
}

#[test]
fn work_is_appended_behind_what_the_queue_holds() {
    let mut queue = vec![SudokuGameProperties::new(full()).unwrap()];
    generate_work(SudokuGameProperties::new(eight_clues()).unwrap(), 1, 0, &mut queue);
    assert_eq!(queue.len(), 6);
    assert_eq!(queue[0], SudokuGameProperties::new(full()).unwrap());
    assert_eq!(queue[1..].to_vec(), pool(eight_clues(), 1));
}

#[test]
fn levels_already_taken_count_against_the_depth() {
    let mut queue = Vec::new();
    generate_work(SudokuGameProperties::new(eight_clues()).unwrap(), 3, 2, &mut queue);
    assert_eq!(queue, pool(eight_clues(), 1));
    let mut at_limit = Vec::new();
    generate_work(SudokuGameProperties::new(eight_clues()).unwrap(), 3, 3, &mut at_limit);
    assert_eq!(at_limit, pool(eight_clues(), 0));
    let mut beyond = Vec::new();
    generate_work(SudokuGameProperties::new(eight_clues()).unwrap(), 3, 7, &mut beyond);
    assert_eq!(beyond, pool(eight_clues(), 0));
}

#[test]
fn every_grid_of_the_pool_is_valid_and_keeps_the_clues() {
    for b in [puzzle(), eight_clues(), stuck()] {
        for s in pool(b, 3) {
            let g = s.board();
            assert_eq!(SudokuGameProperties::new(g), Some(s));
            for r in 0..9 {
                for c in 0..9 {
                    assert!(b[r][c] == 0 || g[r][c] == b[r][c]);
                }
            }
        }
    }
}

#[test]
fn generating_twice_gives_the_same_pool() {
    for b in [puzzle(), eight_clues(), [[0; 9]; 9]] {
        let first = pool(b, 3);
        let second = pool(b, 3);
        assert_eq!(first.len(), second.len());
        assert_eq!(first, second);
    }
}

#[test]
fn the_pool_keeps_the_answer_of_its_root() {
    let b = eight_clues();
    let direct = solve_state(SudokuGameProperties::new(b).unwrap());
    let mut from_pool = None;
    for s in pool(b, 3) {
        from_pool = solve_state(s);
        if from_pool.is_some() {
            break;
        }
    }
    assert!(direct.is_some());
    assert_eq!(from_pool, direct);
}

#[test]
fn no_state_of_an_unsolvable_pool_has_an_answer() {
    let q = pool(stuck(), 3);
    assert_eq!(q.len(), 3);
    for s in q {
        assert_eq!(solve_state(s), None);
    }
}
