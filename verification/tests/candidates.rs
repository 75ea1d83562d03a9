use sudoku_solver::candidate_set::CandidateSet;
use sudoku_solver::candidates::{find_all_possibilities_by_cell, find_min_cell, CellPossibilities};
use sudoku_solver::grid::{is_allowed, Board, Cell};

fn puzzle() -> Board {
    [
        [5, 3, 0, 0, 7, 0, 0, 0, 0],
        [6, 0, 0, 1, 9, 5, 0, 0, 0],
        [0, 9, 8, 0, 0, 0, 0, 6, 0],
        [8, 0, 0, 0, 6, 0, 0, 0, 3],
        [4, 0, 0, 8, 0, 3, 0, 0, 1],
        [7, 0, 0, 0, 2, 0, 0, 0, 6],
        [0, 6, 0, 0, 0, 0, 2, 8, 0],
        [0, 0, 0, 4, 1, 9, 0, 0, 5],
        [0, 0, 0, 0, 8, 0, 0, 7, 9],
    ]
}

fn set_of(values: &[usize]) -> CandidateSet {
    let mut s = CandidateSet::new();
    for &v in values {
        s.insert(v);
    }
    s
}

fn entry(x: usize, y: usize, values: &[usize]) -> CellPossibilities {
    CellPossibilities { x, y, possibles_values: set_of(values) }
}

#[test]
fn candidate_set_starts_empty() {
    let s = CandidateSet::new();
    assert!(s.is_empty());
    assert_eq!(s.len(), 0);
    for v in 0..=10 {
        assert!(!s.contains(v));
    }
}

#[test]
fn candidate_set_insert_and_remove() {
    let mut s = CandidateSet::new();
    s.insert(3);
    s.insert(7);
    s.insert(3);
    assert_eq!(s.len(), 2);
    assert!(s.contains(3) && s.contains(7));
    assert!(!s.contains(4));
    s.remove(3);
    assert_eq!(s.len(), 1);
    assert!(!s.contains(3) && s.contains(7));
    s.remove(5);
    s.remove(0);
    s.remove(12);
    assert_eq!(s, set_of(&[7]));
    s.remove(7);
    assert!(s.is_empty());
}

#[test]
fn candidate_set_holds_all_nine_values() {
    let s = set_of(&[1, 2, 3, 4, 5, 6, 7, 8, 9]);
    assert_eq!(s.len(), 9);
    assert!(s.contains(1) && s.contains(9));
    assert!(!s.contains(0) && !s.contains(10));
}

#[test]
fn one_entry_per_empty_cell_in_row_major_order() {
    let b = puzzle();
    let cells = find_all_possibilities_by_cell(b);
    assert_eq!(cells.len(), 51);
    let mut k = 0;
    for x in 0..9 {
        for y in 0..9 {
            if b[x][y] == 0 {
                assert_eq!((cells[k].x, cells[k].y), (x, y));
                k += 1;
            }
        }
    }
    assert_eq!(k, cells.len());
    assert_eq!(cells[0], entry(0, 2, &[1, 2, 4]));
    assert_eq!(cells[1], entry(0, 3, &[2, 6]));
    assert_eq!(cells[50], entry(8, 6, &[1, 3, 4, 6]));
}

#[test]
fn candidates_are_exactly_the_allowed_values() {
    let b = puzzle();
    for e in find_all_possibilities_by_cell(b) {
        let cell = Cell { x: e.x, y: e.y };
        for v in 0..=9 {
            assert_eq!(e.possibles_values.contains(v), is_allowed(&b, &cell, v));
        }
    }
}

#[test]
fn full_board_has_no_entries() {
    let b: Board = [
        [5, 3, 4, 6, 7, 8, 9, 1, 2],
        [6, 7, 2, 1, 9, 5, 3, 4, 8],
        [1, 9, 8, 3, 4, 2, 5, 6, 7],
        [8, 5, 9, 7, 6, 1, 4, 2, 3],
        [4, 2, 6, 8, 5, 3, 7, 9, 1],
        [7, 1, 3, 9, 2, 4, 8, 5, 6],
        [9, 6, 1, 5, 3, 7, 2, 8, 4],
        [2, 8, 7, 4, 1, 9, 6, 3, 5],
        [3, 4, 5, 2, 8, 6, 1, 7, 9],
    ];
    assert!(find_all_possibilities_by_cell(b).is_empty());
}

#[test]
fn empty_board_has_eighty_one_full_entries() {
    let cells = find_all_possibilities_by_cell([[0; 9]; 9]);
    assert_eq!(cells.len(), 81);
    for e in &cells {
        assert_eq!(e.possibles_values.len(), 9);
    }
}

#[test]
fn min_cell_is_the_entry_with_fewest_values() {
    let es = vec![entry(0, 0, &[1, 2, 3]), entry(0, 1, &[4, 5]), entry(0, 2, &[1, 2, 3, 4])];
    assert_eq!(find_min_cell(&es), Some(1));
}

#[test]
fn min_cell_ties_go_to_the_first() {
    let es = vec![entry(0, 0, &[1, 2, 3]), entry(0, 1, &[4, 5]), entry(0, 2, &[7, 9])];
    assert_eq!(find_min_cell(&es), Some(1));
}

#[test]
fn min_cell_never_selects_a_spent_entry() {
    let es = vec![entry(0, 0, &[]), entry(0, 1, &[4, 5, 6]), entry(0, 2, &[])];
    assert_eq!(find_min_cell(&es), Some(1));
}

#[test]
fn min_cell_is_none_without_entries() {
    let es: Vec<CellPossibilities> = Vec::new();
    assert_eq!(find_min_cell(&es), None);
}

#[test]
fn min_cell_is_none_when_every_entry_is_spent() {
    let es = vec![entry(3, 3, &[]), entry(4, 4, &[])];
    assert_eq!(find_min_cell(&es), None);
}

#[test]
fn min_cell_on_the_puzzle() {
    let cells = find_all_possibilities_by_cell(puzzle());
    let i = find_min_cell(&cells).unwrap();
    assert_eq!((cells[i].x, cells[i].y), (4, 4));
    assert_eq!(cells[i].possibles_values.len(), 1);
    assert!(cells[i].possibles_values.contains(5));
}
