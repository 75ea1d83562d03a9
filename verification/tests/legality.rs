use sudoku_solver::grid::{affects_cell, is_allowed, is_in_a_section, Board, Cell};

fn sample() -> Board {
    let mut b: Board = [[0; 9]; 9];
    b[0][0] = 5;
    b[4][4] = 7;
    b[8][2] = 3;
    b
}

#[test]
fn zero_is_never_allowed() {
    let b = sample();
    for x in 0..9 {
        for y in 0..9 {
            assert!(!is_allowed(&b, &Cell { x, y }, 0));
        }
    }
}

#[test]
fn value_in_row_column_or_block_is_refused() {
    let b = sample();
    assert!(!is_allowed(&b, &Cell { x: 0, y: 8 }, 5));
    assert!(!is_allowed(&b, &Cell { x: 8, y: 0 }, 5));
    assert!(!is_allowed(&b, &Cell { x: 2, y: 2 }, 5));
    assert!(is_allowed(&b, &Cell { x: 3, y: 3 }, 5));
    assert!(!is_allowed(&b, &Cell { x: 3, y: 3 }, 7));
    assert!(is_allowed(&b, &Cell { x: 3, y: 3 }, 3));
    assert!(!is_allowed(&b, &Cell { x: 0, y: 0 }, 5));
}

#[test]
fn block_scan_covers_all_three_rows_and_columns() {
    let mut b: Board = [[0; 9]; 9];
    b[5][8] = 4;
    assert!(is_in_a_section(&b, &Cell { x: 3, y: 6 }, 4));
    assert!(is_in_a_section(&b, &Cell { x: 5, y: 8 }, 4));
    assert!(!is_in_a_section(&b, &Cell { x: 6, y: 6 }, 4));
    assert!(!is_in_a_section(&b, &Cell { x: 3, y: 5 }, 4));
}

#[test]
fn cells_affect_each_other_by_row_column_or_block() {
    let p = Cell { x: 4, y: 4 };
    assert!(affects_cell(&p, &Cell { x: 4, y: 0 }));
    assert!(affects_cell(&p, &Cell { x: 8, y: 4 }));
    assert!(affects_cell(&p, &Cell { x: 3, y: 5 }));
    assert!(affects_cell(&p, &Cell { x: 4, y: 4 }));
    assert!(!affects_cell(&p, &Cell { x: 2, y: 5 }));
    assert!(!affects_cell(&p, &Cell { x: 6, y: 6 }));
}

#[test]
fn predicate_agrees_with_a_scan_of_row_column_and_block() {
    let boards: [Board; 3] = [
        sample(),
        [
            [5, 3, 0, 0, 7, 0, 0, 0, 0],
            [6, 0, 0, 1, 9, 5, 0, 0, 0],
            [0, 9, 8, 0, 0, 0, 0, 6, 0],
            [8, 0, 0, 0, 6, 0, 0, 0, 3],
            [4, 0, 0, 8, 0, 3, 0, 0, 1],
            [7, 0, 0, 0, 2, 0, 0, 0, 6],
            [0, 6, 0, 0, 0, 0, 2, 8, 0],
            [0, 0, 0, 4, 1, 9, 0, 0, 5],
            [0, 0, 0, 0, 8, 0, 0, 7, 9],
        ],
        [[0; 9]; 9],
    ];
    for b in boards {
        for x in 0..9 {
            for y in 0..9 {
                for v in 0..=10 {
                    let mut seen = false;
                    for k in 0..9 {
                        seen = seen || b[x][k] == v || b[k][y] == v;
                    }
                    let mut in_block = false;
                    for i in (x / 3) * 3..(x / 3) * 3 + 3 {
                        for j in (y / 3) * 3..(y / 3) * 3 + 3 {
                            in_block = in_block || b[i][j] == v;
                        }
                    }
                    let cell = Cell { x, y };
                    assert_eq!(is_in_a_section(&b, &cell, v), in_block);
                    assert_eq!(is_allowed(&b, &cell, v), v != 0 && !seen && !in_block);
                }
            }
        }
    }
}

#[test]
fn a_value_outside_the_grid_is_allowed_like_any_other() {
    let mut b = sample();
    assert!(is_allowed(&b, &Cell { x: 1, y: 1 }, 10));
    b[1][8] = 10;
    assert!(!is_allowed(&b, &Cell { x: 1, y: 1 }, 10));
}
