//! The search state and the sequential solver: depth-first search with
//! propagation over one state, until a solution is found or every branch
//! is spent.

use vstd::prelude::*;
use crate::candidates::{
    find_all_possibilities_by_cell, find_min_cell, fresh, has_entry, initial_entries, legal_values,
    lemma_select, select, tracks, views, Candidates, CellPossibilities,
};
use crate::grid::{answer, grid, on_grid, shaped, value_at, Board, Cell, N};
use crate::propagation::{eliminate, lemma_eliminate_keeps_tracking, reduce};
use crate::solution::{
    complete, fills, has_solution, in_range, is_well_formed, lemma_filling_ascends,
    lemma_filling_descends, lemma_fillings_are_solutions, lemma_full_grid_fills_itself,
    lemma_placement_keeps_valid, lemma_with_value, solution_of, solvable, valid_grid,
    well_formed, with_value,
};

verus! {

/// One node of the search tree: a grid and the entries of its empty cells.
/// The grid is always well formed and the entries always track it; a
/// state is made from a well-formed board and changed only by branching,
/// and each branch is a copy of its own.
#[derive(Debug, PartialEq, Eq)]
pub struct SudokuGameProperties {
    board: Board,
    cells_possibilities: Vec<CellPossibilities>,
}

/// The model of a search state.
pub struct SearchState {
    pub grid: Seq<Seq<int>>,
    pub entries: Seq<Candidates>,
}

impl SearchState {
    /// The entries track the grid.
    pub open spec fn consistent(self) -> bool {
        shaped(self.grid) && tracks(self.grid, self.entries)
    }

    /// The grid is well formed and the entries track it.
    pub open spec fn sound(self) -> bool {
        well_formed(self.grid) && tracks(self.grid, self.entries)
    }

    /// The state after `v` was placed at `(r, c)` and propagated.
    pub open spec fn place(self, r: int, c: int, v: int) -> SearchState {
        SearchState {
            grid: with_value(self.grid, r, c, v),
            entries: eliminate(self.entries, r, c, v),
        }
    }

    /// The state that the search of `g` starts from.
    pub open spec fn root(g: Seq<Seq<int>>) -> SearchState {
        SearchState { grid: g, entries: initial_entries(g) }
    }
}

impl View for SudokuGameProperties {
    type V = SearchState;

    closed spec fn view(&self) -> SearchState {
        SearchState { grid: grid(self.board), entries: views(self.cells_possibilities@) }
    }
}

impl Clone for SudokuGameProperties {
    /// An independent copy with the same grid and the same entries.
    fn clone(&self) -> (copy: Self)
        ensures
            copy@ == self@,
    {
        proof {
            use_type_invariant(self);
        }
        let mut entries: Vec<CellPossibilities> = Vec::new();
        let mut i: usize = 0;
        while i < self.cells_possibilities.len()
            invariant
                i <= self.cells_possibilities.len(),
                entries@ == self.cells_possibilities@.subrange(0, i as int),
            decreases self.cells_possibilities.len() - i,
        {
            entries.push(self.cells_possibilities[i]);
            assert(entries@ =~= self.cells_possibilities@.subrange(0, i + 1));
            i += 1;
        }
        assert(entries@ =~= self.cells_possibilities@);
        SudokuGameProperties { board: self.board, cells_possibilities: entries }
    }
}

impl SudokuGameProperties {
    #[verifier::type_invariant]
    spec fn well_formed_and_tracked(self) -> bool {
        &&& in_range(grid(self.board))
        &&& valid_grid(grid(self.board))
        &&& tracks(grid(self.board), views(self.cells_possibilities@))
    }

    /// The root of a search: the board as given, with one entry for each
    /// of its empty cells. A board that is not well formed, with a value
    /// above nine or a fixed value repeated in a row, a column or a
    /// block, is refused.
    pub fn new(board: Board) -> (state: Option<SudokuGameProperties>)
        ensures
            match state {
                Some(s) => well_formed(grid(board)) && s@ == SearchState::root(grid(board))
                    && s@.sound(),
                None => !well_formed(grid(board)),
            },
    {
        if !is_well_formed(&board) {
            return None;
        }
        let cells = find_all_possibilities_by_cell(board);
        Some(SudokuGameProperties { board, cells_possibilities: cells })
    }

    /// The grid of this state.
    pub fn board(&self) -> (board: Board)
        ensures
            grid(board) == self@.grid,
            self@.sound(),
    {
        proof {
            use_type_invariant(self);
        }
        self.board
    }

    /// The active entries of this state.
    pub fn cells_possibilities(&self) -> (entries: &Vec<CellPossibilities>)
        ensures
            views(entries@) == self@.entries,
            self@.sound(),
    {
        proof {
            use_type_invariant(self);
        }
        &self.cells_possibilities
    }

    /// The state one level down: a copy of this one in which `value` was
    /// placed in the cell of entry `index` and propagated.
    pub fn branch(&self, index: usize, value: usize) -> (child: SudokuGameProperties)
        requires
            index < self@.entries.len(),
            self@.entries[index as int].values.contains(value as int),
        ensures
            child@ == self@.place(
                self@.entries[index as int].row,
                self@.entries[index as int].col,
                value as int,
            ),
            child@.sound(),
            child@.entries.len() < self@.entries.len(),
    {
        proof {
            use_type_invariant(self);
            lemma_place_keeps_sound(self@, index as int, value as int);
        }
        let copy = self.clone();
        let entry = self.cells_possibilities[index];
        let cell = Cell { x: entry.x, y: entry.y };
        let ghost e = self@.entries[index as int];
        assert(e == entry@);
        assert(fresh(self@.grid, e));
        assert(legal_values(self@.grid, e.row, e.col).contains(value as int));
        let mut board = copy.board;
        let mut cells = copy.cells_possibilities;
        reduce(&mut board, &mut cells, &cell, value);
        SudokuGameProperties { board, cells_possibilities: cells }
    }
}

/// What the depth-first search of `s` finds. A state without entries
/// answers with its grid. Otherwise the values of the selected entry are
/// tried in ascending order, and the first branch with an answer gives
/// it; a state with no selectable entry has no answer.
pub open spec fn search(s: SearchState) -> Option<Seq<Seq<int>>>
    decreases s.entries.len(), 11int,
{
    if s.entries.len() == 0 {
        Some(s.grid)
    } else {
        match select(s.entries) {
            Some(i) => search_from(s, i, 1),
            None => None,
        }
    }
}

/// What the search of `s` finds in the branches of entry `i` for its
/// values from `from` up. A branch has fewer entries than its parent,
/// since the entry of the branching cell is retired; the definition
/// recurses on that.
pub open spec fn search_from(s: SearchState, i: int, from: int) -> Option<Seq<Seq<int>>>
    decreases s.entries.len(), 10 - from,
{
    if from < 1 || from > 9 {
        None
    } else {
        let child = s.place(s.entries[i].row, s.entries[i].col, from);
        let found = if s.entries[i].values.contains(from) && child.entries.len()
            < s.entries.len() {
            search(child)
        } else {
            None
        };
        if found is Some {
            found
        } else {
            search_from(s, i, from + 1)
        }
    }
}

/// Branching keeps a state sound: placing a value of an entry in the cell
/// of that entry leaves a well-formed grid and entries that track it.
pub proof fn lemma_place_keeps_sound(s: SearchState, i: int, v: int)
    requires
        s.sound(),
        0 <= i < s.entries.len(),
        s.entries[i].values.contains(v),
    ensures
        s.place(s.entries[i].row, s.entries[i].col, v).sound(),
        s.place(s.entries[i].row, s.entries[i].col, v).entries.len() < s.entries.len(),
{
    let e = s.entries[i];
    let h = with_value(s.grid, e.row, e.col, v);
    assert(fresh(s.grid, e));
    assert(legal_values(s.grid, e.row, e.col).contains(v));
    lemma_with_value(s.grid, e.row, e.col, v);
    lemma_eliminate_keeps_tracking(s.grid, s.entries, e.row, e.col, v);
    lemma_placement_keeps_valid(s.grid, e.row, e.col, v);
    assert forall|r: int, c: int| on_grid(r, c) implies 0 <= #[trigger] value_at(h, r, c) <= 9 by {
        if !(r == e.row && c == e.col) {
            assert(value_at(h, r, c) == value_at(s.grid, r, c));
        }
    }
}

/// A consistent state without entries holds a full grid.
pub proof fn lemma_no_entries_is_full(s: SearchState)
    requires
        s.consistent(),
        s.entries.len() == 0,
    ensures
        complete(s.grid),
        fills(s.grid, s.grid),
{
    assert forall|r: int, c: int| on_grid(r, c) implies #[trigger] value_at(s.grid, r, c) != 0 by {
        if value_at(s.grid, r, c) == 0 {
            assert(has_entry(s.entries, r, c));
        }
    }
    lemma_full_grid_fills_itself(s.grid);
}

/// A consistent state with an entry that has no value left has no filling.
pub proof fn lemma_spent_entry_is_dead(s: SearchState, i: int)
    requires
        s.consistent(),
        0 <= i < s.entries.len(),
        s.entries[i].values.len() == 0,
    ensures
        !solvable(s.grid),
{
    let e = s.entries[i];
    assert(fresh(s.grid, e));
    if solvable(s.grid) {
        let g = choose|g: Seq<Seq<int>>| fills(s.grid, g);
        lemma_filling_descends(s.grid, g, e.row, e.col);
        let w = value_at(g, e.row, e.col);
        assert(legal_values(s.grid, e.row, e.col).contains(w));
        let bound = Set::new(|v: int| 1 <= v <= 9);
        assert(bound =~= vstd::set_lib::set_int_range(1, 10));
        vstd::set_lib::lemma_int_range(1, 10);
        vstd::set_lib::lemma_len_subset(e.values, bound);
    }
}

/// If no value of entry `i` leads to a grid with a filling, the state has
/// no filling.
pub proof fn lemma_branches_exhausted(s: SearchState, i: int)
    requires
        s.consistent(),
        0 <= i < s.entries.len(),
        forall|w: int|
            1 <= w <= 9 && s.entries[i].values.contains(w) ==> !solvable(
                #[trigger] with_value(s.grid, s.entries[i].row, s.entries[i].col, w),
            ),
    ensures
        !solvable(s.grid),
{
    let e = s.entries[i];
    assert(fresh(s.grid, e));
    if solvable(s.grid) {
        let g = choose|g: Seq<Seq<int>>| fills(s.grid, g);
        lemma_filling_descends(s.grid, g, e.row, e.col);
        let w = value_at(g, e.row, e.col);
        assert(legal_values(s.grid, e.row, e.col).contains(w));
        assert(fills(with_value(s.grid, e.row, e.col, w), g));
        assert(solvable(with_value(s.grid, e.row, e.col, w)));
    }
}

/// The search is sound and complete: what it finds is a filling of the
/// state's grid, and it finds nothing only where the grid has no filling.
pub proof fn lemma_search(s: SearchState)
    requires
        s.consistent(),
    ensures
        match search(s) {
            Some(g) => fills(s.grid, g),
            None => !solvable(s.grid),
        },
    decreases s.entries.len(), 11int,
{
    lemma_select(s.entries);
    if s.entries.len() == 0 {
        lemma_no_entries_is_full(s);
    } else {
        match select(s.entries) {
            Some(i) => {
                lemma_search_from(s, i, 1);
                if search(s) is None {
                    lemma_branches_exhausted(s, i);
                }
            },
            None => {
                lemma_spent_entry_is_dead(s, 0);
            },
        }
    }
}

/// What the search finds in the branches from `from` up is a filling of
/// the state's grid; where it finds nothing, none of these branches
/// leads to a grid with a filling.
pub proof fn lemma_search_from(s: SearchState, i: int, from: int)
    requires
        s.consistent(),
        0 <= i < s.entries.len(),
        1 <= from,
    ensures
        match search_from(s, i, from) {
            Some(g) => fills(s.grid, g),
            None => forall|w: int|
                from <= w <= 9 && s.entries[i].values.contains(w) ==> !solvable(
                    #[trigger] with_value(s.grid, s.entries[i].row, s.entries[i].col, w),
                ),
        },
    decreases s.entries.len(), 10 - from,
{
    if from <= 9 {
        let e = s.entries[i];
        let child = s.place(e.row, e.col, from);
        assert(fresh(s.grid, e));
        if e.values.contains(from) {
            assert(legal_values(s.grid, e.row, e.col).contains(from));
            lemma_with_value(s.grid, e.row, e.col, from);
            lemma_eliminate_keeps_tracking(s.grid, s.entries, e.row, e.col, from);
            lemma_search(child);
            match search(child) {
                Some(g) => {
                    lemma_filling_ascends(s.grid, g, e.row, e.col, from);
                },
                None => {
                    lemma_search_from(s, i, from + 1);
                },
            }
        } else {
            lemma_search_from(s, i, from + 1);
        }
    }
}

/// On a sound state the search finds solutions: what it finds is a solved
/// grid that keeps the fixed values of the state's grid, and it finds
/// nothing exactly when that grid has no solution.
pub proof fn lemma_search_finds_solutions(s: SearchState)
    requires
        s.sound(),
    ensures
        match search(s) {
            Some(a) => solution_of(s.grid, a),
            None => !has_solution(s.grid),
        },
{
    lemma_search(s);
    lemma_fillings_are_solutions(s.grid);
}

/// Searches one state depth first. With no entry left the grid is the
/// answer. Otherwise the solver branches on the entry that `find_min_cell`
/// picks, trying its values in ascending order, each on a copy of the
/// state; a state whose entries are all spent is a dead end.
///
/// The answer is a solution of the state's grid: a solved grid that keeps
/// its fixed values. `None` is returned exactly when the grid has no
/// solution. Which solution is found is fixed by the order of the search.
#[verifier::loop_isolation(false)]
pub fn solve_state(state: SudokuGameProperties) -> (solution: Option<Board>)
    ensures
        answer(solution) == search(state@),
        match solution {
            Some(b) => solution_of(state@.grid, grid(b)),
            None => !has_solution(state@.grid),
        },
    decreases state@.entries.len(),
{
    let ghost s = state@;
    proof {
        use_type_invariant(&state);
        lemma_search_finds_solutions(s);
        lemma_select(s.entries);
    }
    if state.cells_possibilities.is_empty() {
        return Some(state.board);
    }
    match find_min_cell(state.cells_possibilities.as_slice()) {
        Some(best_index) => {
            let entry = state.cells_possibilities[best_index];
            assert(s.entries[best_index as int] == entry@);

            let mut value: usize = 1;
            while value <= N
                invariant
                    1 <= value <= 10,
                    search(s) == search_from(s, best_index as int, value as int),
                decreases 10 - value,
            {
                if entry.possibles_values.contains(value) {
                    let new_state = state.branch(best_index, value);
                    if let Some(solution) = solve_state(new_state) {
                        return Some(solution);
                    }
                }
                value += 1;
            }
            None
        },
        None => None,
    }
}

} // verus!
