use sudoku_solver::candidate_set::CandidateSet;
use sudoku_solver::candidates::{find_all_possibilities_by_cell, CellPossibilities};
use sudoku_solver::grid::{Board, Cell};
use sudoku_solver::propagation::reduce;

fn puzzle() -> Board {
    [
        [5, 3, 0, 0, 7, 0, 0, 0, 0],
        [6, 0, 0, 1, 9, 5, 0, 0, 0],
        [0, 9, 8, 0, 0, 0, 0, 6, 0],
        [8, 0, 0, 0, 6, 0, 0, 0, 3],
        [4, 0, 0, 8, 0, 3, 0, 0, 1],
        [7, 0, 0, 0, 2, 0, 0, 0, 6],
        [0, 6, 0, 0, 0, 0, 2, 8, 0],
        [0, 0, 0, 4, 1, 9, 0, 0, 5],
        [0, 0, 0, 0, 8, 0, 0, 7, 9],
    ]
}

fn set_of(values: &[usize]) -> CandidateSet {
    let mut s = CandidateSet::new();
    for &v in values {
        s.insert(v);
    }
    s
}

fn entry(x: usize, y: usize, values: &[usize]) -> CellPossibilities {
    CellPossibilities { x, y, possibles_values: set_of(values) }
}

fn related(a: (usize, usize), b: (usize, usize)) -> bool {
    a.0 == b.0 || a.1 == b.1 || (a.0 / 3 == b.0 / 3 && a.1 / 3 == b.1 / 3)
}

fn valid(b: &Board) -> bool {
    for r1 in 0..9 {
        for c1 in 0..9 {
            for r2 in 0..9 {
                for c2 in 0..9 {
                    if (r1, c1) != (r2, c2)
                        && related((r1, c1), (r2, c2))
                        && b[r1][c1] != 0
                        && b[r1][c1] == b[r2][c2]
                    {
                        return false;
                    }
                }
            }
        }
    }
    true
}

#[test]
fn reduce_writes_the_cell_and_retires_its_entry() {
    let mut b = puzzle();
    let mut es = find_all_possibilities_by_cell(b);
    reduce(&mut b, &mut es, &Cell { x: 4, y: 4 }, 5);
    assert_eq!(b[4][4], 5);
    let mut expected = puzzle();
    expected[4][4] = 5;
    assert_eq!(b, expected);
    assert_eq!(es.len(), 50);
    assert!(es.iter().all(|e| (e.x, e.y) != (4, 4)));
}

#[test]
fn reduce_strikes_the_value_from_related_entries_only() {
    let mut b = puzzle();
    let before = find_all_possibilities_by_cell(b);
    let mut es = before.clone();
    reduce(&mut b, &mut es, &Cell { x: 4, y: 4 }, 5);
    let kept: Vec<CellPossibilities> =
        before.iter().filter(|e| (e.x, e.y) != (4, 4)).cloned().collect();
    assert_eq!(kept.len(), es.len());
    let mut changed = Vec::new();
    for (old, new) in kept.iter().zip(es.iter()) {
        assert_eq!((old.x, old.y), (new.x, new.y));
        let mut want = old.possibles_values;
        if related((4, 4), (old.x, old.y)) {
            want.remove(5);
        }
        assert_eq!(new.possibles_values, want);
        if new.possibles_values != old.possibles_values {
            changed.push((new.x, new.y));
        }
    }
    assert_eq!(changed, vec![(3, 3), (4, 1), (4, 2), (4, 6), (4, 7), (5, 3), (6, 4)]);
    assert_eq!(es.iter().find(|e| (e.x, e.y) == (4, 1)), Some(&entry(4, 1, &[2])));
    assert_eq!(es.iter().find(|e| (e.x, e.y) == (4, 2)), Some(&entry(4, 2, &[2, 6, 9])));
}

#[test]
fn reduce_reaches_the_whole_block() {
    let mut b: Board = [[0; 9]; 9];
    let mut es = find_all_possibilities_by_cell(b);
    reduce(&mut b, &mut es, &Cell { x: 3, y: 3 }, 7);
    for e in &es {
        let hit = related((3, 3), (e.x, e.y));
        assert_eq!(e.possibles_values.contains(7), !hit);
        assert_eq!(e.possibles_values.len(), if hit { 8 } else { 9 });
    }
    let struck = es.iter().filter(|e| !e.possibles_values.contains(7)).count();
    assert_eq!(struck, 20);
    assert!(!es.iter().find(|e| (e.x, e.y) == (5, 5)).unwrap().possibles_values.contains(7));
}

#[test]
fn reduce_leaves_nothing_stale() {
    let mut b = puzzle();
    let mut es = find_all_possibilities_by_cell(b);
    for (x, y, v) in [(4, 4, 5), (4, 1, 2), (6, 4, 3), (5, 3, 9)] {
        assert!(es.iter().find(|e| (e.x, e.y) == (x, y)).unwrap().possibles_values.contains(v));
        reduce(&mut b, &mut es, &Cell { x, y }, v);
        assert_eq!(es, find_all_possibilities_by_cell(b));
        assert!(valid(&b));
    }
}

#[test]
fn reduce_on_a_cell_without_entry_only_prunes() {
    let mut b: Board = [[0; 9]; 9];
    let mut es = vec![entry(0, 0, &[1, 2]), entry(0, 5, &[2, 3]), entry(7, 7, &[2, 4])];
    reduce(&mut b, &mut es, &Cell { x: 0, y: 8 }, 2);
    assert_eq!(b[0][8], 2);
    assert_eq!(es, vec![entry(0, 0, &[1]), entry(0, 5, &[3]), entry(7, 7, &[2, 4])]);
}

#[test]
fn reduce_can_spend_an_entry() {
    let mut b: Board = [[0; 9]; 9];
    let mut es = vec![entry(2, 2, &[6]), entry(2, 3, &[6, 7])];
    reduce(&mut b, &mut es, &Cell { x: 2, y: 3 }, 6);
    assert_eq!(es, vec![entry(2, 2, &[])]);
}
