//! The candidate tracker: one entry per empty cell with the values that
//! are legal there, and the rule that picks the next cell to branch on.

use vstd::prelude::*;
use crate::candidate_set::CandidateSet;
use crate::grid::{allowed, grid, is_allowed, on_grid, value_at, Board, Cell, N};

verus! {

/// An active entry: an empty cell and the values still legal there.
#[derive(Clone, Copy, Debug, PartialEq, Eq)]
pub struct CellPossibilities {
    pub x: usize,
    pub y: usize,
    pub possibles_values: CandidateSet,
}

/// The model of an entry.
pub struct Candidates {
    pub row: int,
    pub col: int,
    pub values: Set<int>,
}

impl View for CellPossibilities {
    type V = Candidates;

    open spec fn view(&self) -> Candidates {
        Candidates { row: self.x as int, col: self.y as int, values: self.possibles_values@ }
    }
}

/// The models of a sequence of entries, in the same order.
pub open spec fn views(entries: Seq<CellPossibilities>) -> Seq<Candidates> {
    Seq::new(entries.len(), |i: int| entries[i]@)
}

/// The values `1..=9` that the legality rule allows at `(r, c)`.
pub open spec fn legal_values(g: Seq<Seq<int>>, r: int, c: int) -> Set<int> {
    Set::new(|v: int| 1 <= v <= 9 && allowed(g, r, c, v))
}

/// The entry names an empty cell of `g`, and its values are exactly the
/// legal ones: nothing stale, nothing missing.
pub open spec fn fresh(g: Seq<Seq<int>>, e: Candidates) -> bool {
    &&& on_grid(e.row, e.col)
    &&& value_at(g, e.row, e.col) == 0
    &&& e.values == legal_values(g, e.row, e.col)
}

/// The entries track the grid: each is fresh, no cell has two entries,
/// and every empty cell has one.
pub open spec fn tracks(g: Seq<Seq<int>>, entries: Seq<Candidates>) -> bool {
    &&& forall|i: int| 0 <= i < entries.len() ==> fresh(g, #[trigger] entries[i])
    &&& forall|i: int, j: int|
        0 <= i < j < entries.len() ==> !((#[trigger] entries[i]).row == (#[trigger] entries[j]).row
            && entries[i].col == entries[j].col)
    &&& forall|r: int, c: int|
        on_grid(r, c) && #[trigger] value_at(g, r, c) == 0 ==> has_entry(entries, r, c)
}

/// Some entry names the cell `(r, c)`.
pub open spec fn has_entry(entries: Seq<Candidates>, r: int, c: int) -> bool {
    exists|i: int| 0 <= i < entries.len() && (#[trigger] entries[i]).row == r && entries[i].col == c
}

/// The entries stand in row-major order of their cells.
pub open spec fn row_major(entries: Seq<Candidates>) -> bool {
    forall|i: int, j: int|
        0 <= i < j < entries.len() ==> (#[trigger] entries[i]).row * 9 + entries[i].col < (
        #[trigger] entries[j]).row * 9 + entries[j].col
}

/// The entries of the first `n` cells of `g` in row-major order: one for
/// each empty cell, with its legal values.
pub open spec fn entries_upto(g: Seq<Seq<int>>, n: int) -> Seq<Candidates>
    decreases n,
{
    if n <= 0 {
        Seq::empty()
    } else {
        let rest = entries_upto(g, n - 1);
        let r = (n - 1) / 9;
        let c = (n - 1) % 9;
        if value_at(g, r, c) == 0 {
            rest.push(Candidates { row: r, col: c, values: legal_values(g, r, c) })
        } else {
            rest
        }
    }
}

/// The entries that a search of `g` starts with.
pub open spec fn initial_entries(g: Seq<Seq<int>>) -> Seq<Candidates> {
    entries_upto(g, 81)
}

/// The entries of the first `n` cells track those cells, in row-major
/// order.
pub proof fn lemma_entries_upto(g: Seq<Seq<int>>, n: int)
    requires
        0 <= n <= 81,
    ensures
        forall|k: int|
            0 <= k < entries_upto(g, n).len() ==> fresh(g, #[trigger] entries_upto(g, n)[k]),
        forall|k: int|
            0 <= k < entries_upto(g, n).len() ==> (#[trigger] entries_upto(g, n)[k]).row * 9
                + entries_upto(g, n)[k].col < n,
        row_major(entries_upto(g, n)),
        forall|r: int, c: int|
            on_grid(r, c) && r * 9 + c < n && #[trigger] value_at(g, r, c) == 0 ==> has_entry(
                entries_upto(g, n),
                r,
                c,
            ),
    decreases n,
{
    if n > 0 {
        let rest = entries_upto(g, n - 1);
        let all = entries_upto(g, n);
        let r0 = (n - 1) / 9;
        let c0 = (n - 1) % 9;
        lemma_entries_upto(g, n - 1);
        assert(on_grid(r0, c0) && r0 * 9 + c0 == n - 1);
        assert forall|r: int, c: int|
            on_grid(r, c) && r * 9 + c < n && #[trigger] value_at(g, r, c) == 0 implies has_entry(
            all,
            r,
            c,
        ) by {
            if r * 9 + c < n - 1 {
                assert(has_entry(rest, r, c));
                let k = choose|k: int|
                    0 <= k < rest.len() && (#[trigger] rest[k]).row == r && rest[k].col == c;
                assert(all[k] == rest[k]);
            } else {
                assert(r == r0 && c == c0);
                assert(all[rest.len() as int].row == r0);
            }
        }
    }
}

/// The initial entries track the grid, in row-major order.
pub proof fn lemma_initial_entries(g: Seq<Seq<int>>)
    ensures
        tracks(g, initial_entries(g)),
        row_major(initial_entries(g)),
{
    lemma_entries_upto(g, 81);
}

/// Entry `i` is the one to branch on: it has the fewest values among the
/// entries that have any, and it is the first such entry.
pub open spec fn selects(entries: Seq<Candidates>, i: int) -> bool {
    &&& 0 <= i < entries.len()
    &&& entries[i].values.len() > 0
    &&& forall|j: int|
        0 <= j < entries.len() && (#[trigger] entries[j]).values.len() > 0 ==> entries[i].values.len()
            <= entries[j].values.len()
    &&& forall|j: int|
        0 <= j < i && (#[trigger] entries[j]).values.len() > 0 ==> entries[i].values.len()
            < entries[j].values.len()
}

/// No entry has a value left. With no entries at all the grid is full;
/// with entries, the branch is dead.
pub open spec fn none_selectable(entries: Seq<Candidates>) -> bool {
    forall|j: int| 0 <= j < entries.len() ==> (#[trigger] entries[j]).values.len() == 0
}

/// At most one entry is selected.
pub proof fn lemma_selection_unique(entries: Seq<Candidates>, i: int, j: int)
    requires
        selects(entries, i),
        selects(entries, j),
    ensures
        i == j,
{
}

/// The entry to branch on, if any entry has a value left.
pub open spec fn select(entries: Seq<Candidates>) -> Option<int> {
    if exists|i: int| selects(entries, i) {
        Some(choose|i: int| selects(entries, i))
    } else {
        None
    }
}

/// Unless no entry has a value left, one entry is selected.
pub proof fn lemma_selection_exists(entries: Seq<Candidates>)
    ensures
        none_selectable(entries) || exists|i: int| selects(entries, i),
    decreases entries.len(),
{
    if entries.len() > 0 {
        let front = entries.drop_last();
        let last = entries.len() - 1;
        lemma_selection_exists(front);
        assert forall|j: int| 0 <= j < front.len() implies #[trigger] front[j] == entries[j] by {}
        if none_selectable(front) {
            if entries[last].values.len() > 0 {
                assert forall|j: int| 0 <= j < last implies (#[trigger] entries[j]).values.len()
                    == 0 by {
                    assert(front[j].values.len() == 0);
                }
                assert(selects(entries, last));
            } else {
                assert forall|j: int| 0 <= j < entries.len() implies (
                #[trigger] entries[j]).values.len() == 0 by {
                    if j < last {
                        assert(front[j].values.len() == 0);
                    }
                }
            }
        } else {
            let i = choose|i: int| selects(front, i);
            assert(front[i] == entries[i]);
            assert forall|j: int|
                0 <= j < last && (#[trigger] entries[j]).values.len() > 0 implies entries[i].values.len()
                <= entries[j].values.len() by {
                assert(front[j] == entries[j]);
            }
            assert forall|j: int|
                0 <= j < i && (#[trigger] entries[j]).values.len() > 0 implies entries[i].values.len()
                < entries[j].values.len() by {
                assert(front[j] == entries[j]);
            }
            if entries[last].values.len() > 0 && entries[last].values.len()
                < entries[i].values.len() {
                assert(selects(entries, last));
            } else {
                assert(selects(entries, i));
            }
        }
    }
}

/// `select` names the entry that is selected, and names none exactly
/// when no entry has a value left.
pub proof fn lemma_select(entries: Seq<Candidates>)
    ensures
        forall|i: int| selects(entries, i) ==> select(entries) == Some(i),
        select(entries) matches Some(i) ==> selects(entries, i),
        select(entries) is None <==> none_selectable(entries),
{
    lemma_selection_exists(entries);
    assert forall|i: int| selects(entries, i) implies select(entries) == Some(i) by {
        let j = choose|j: int| selects(entries, j);
        lemma_selection_unique(entries, i, j);
    }
}

/// The legal values of the cell `(x, y)`.
fn legal_set(board: &Board, x: usize, y: usize) -> (values: CandidateSet)
    requires
        x < 9,
        y < 9,
    ensures
        values@ == legal_values(grid(*board), x as int, y as int),
{
    let mut values = CandidateSet::new();
    let cell = Cell { x, y };
    let ghost g = grid(*board);
    let mut number: usize = 1;
    while number <= N
        invariant
            1 <= number <= 10,
            cell.x == x < 9,
            cell.y == y < 9,
            g == grid(*board),
            forall|v: int|
                values@.contains(v) <==> 1 <= v < number && allowed(g, x as int, y as int, v),
        decreases 10 - number,
    {
        if is_allowed(board, &cell, number) {
            values.insert(number);
        }
        number += 1;
    }
    assert(values@ =~= legal_values(g, x as int, y as int));
    values
}

/// Builds the entries of a board: one per empty cell, in row-major order,
/// each holding exactly the values that the legality rule allows there.
pub fn find_all_possibilities_by_cell(board: Board) -> (cells: Vec<CellPossibilities>)
    ensures
        views(cells@) == initial_entries(grid(board)),
        tracks(grid(board), views(cells@)),
        row_major(views(cells@)),
{
    let mut cells: Vec<CellPossibilities> = Vec::new();
    let ghost g = grid(board);

    let mut i: usize = 0;
    while i < N
        invariant
            i <= 9,
            g == grid(board),
            views(cells@) == entries_upto(g, i * 9),
        decreases 9 - i,
    {
        let mut j: usize = 0;
        while j < N
            invariant
                i < 9,
                j <= 9,
                g == grid(board),
                views(cells@) == entries_upto(g, i * 9 + j),
            decreases 9 - j,
        {
            assert((i * 9 + j) / 9 == i && (i * 9 + j) % 9 == j);
            if board[i][j] == 0 {
                let values = legal_set(&board, i, j);
                let possibilities = CellPossibilities { x: i, y: j, possibles_values: values };
                let ghost before = views(cells@);
                cells.push(possibilities);
                assert(views(cells@) =~= before.push(possibilities@));
            }
            j += 1;
        }
        i += 1;
    }
    proof {
        lemma_initial_entries(g);
    }
    cells
}

/// Picks the entry to branch on: the first of those with the fewest
/// values, entries without a value left out. `None` when no entry has a
/// value left, which covers both the full grid (no entries) and the dead
/// branch (entries, all of them spent); the caller tells the two apart by
/// the number of entries.
pub fn find_min_cell(possibilities: &[CellPossibilities]) -> (index: Option<usize>)
    ensures
        match index {
            Some(i) => selects(views(possibilities@), i as int),
            None => none_selectable(views(possibilities@)),
        },
{
    let mut min: usize = N + 1;
    let mut index: Option<usize> = None;
    let ghost entries = views(possibilities@);

    let mut i: usize = 0;
    while i < possibilities.len()
        invariant
            i <= possibilities.len(),
            entries == views(possibilities@),
            match index {
                Some(k) => {
                    &&& k < i
                    &&& min == entries[k as int].values.len()
                    &&& 0 < min <= 9
                    &&& forall|j: int|
                        0 <= j < i && (#[trigger] entries[j]).values.len() > 0 ==> min
                            <= entries[j].values.len()
                    &&& forall|j: int|
                        0 <= j < k && (#[trigger] entries[j]).values.len() > 0 ==> min
                            < entries[j].values.len()
                },
                None => {
                    &&& min == 10
                    &&& forall|j: int| 0 <= j < i ==> (#[trigger] entries[j]).values.len() == 0
                },
            },
        decreases possibilities.len() - i,
    {
        let cell = &possibilities[i];
        assert(entries[i as int].values == cell.possibles_values@);
        let count: usize = cell.possibles_values.len();
        if !cell.possibles_values.is_empty() && count < min {
            min = count;
            index = Some(i);
        }
        i += 1;
    }
    index
}

} // verus!
