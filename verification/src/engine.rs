//! The orchestration of a search: the pool of work for a board, the
//! dispatcher that hands the pool out and keeps the first answer, and the
//! engine that runs a pool to its end on one thread.

use std::collections::VecDeque;
use vstd::prelude::*;
use crate::candidates::{has_entry, lemma_initial_entries, lemma_select, select};
use crate::grid::{answer, grid, shaped, Board};
use crate::propagation::lemma_without_cell;
use crate::search::{
    lemma_search, search, search_from, solve_state, SearchState, SudokuGameProperties,
};
use crate::solution::{
    fills, has_solution, lemma_defect_has_no_solution, lemma_fillings_are_solutions, solution_of,
    well_formed,
};
use crate::work::{
    branch_pools, covers, generate_work, lemma_work_pool, state_views, work_pool,
};

verus! {

/// How many levels of the search tree the work generator expands.
pub const WORK_DEPTH: usize = 3;

/// Builds the pool of work for a board: the expansion of its root state
/// down to `WORK_DEPTH` levels. The pool is the same for the same board.
/// A board that is not well formed has no solution and gets no work: its
/// pool is empty, and the pool of no other board is.
pub fn build_work_pool(board: Board) -> (pool: Vec<SudokuGameProperties>)
    ensures
        state_views(pool@) == engine_pool(grid(board)),
        pool.len() >= 1 <==> well_formed(grid(board)),
{
    let mut work_queue: Vec<SudokuGameProperties> = Vec::new();
    match SudokuGameProperties::new(board) {
        Some(initial_state) => {
            proof {
                lemma_work_pool(initial_state@, WORK_DEPTH as nat, 0);
            }
            generate_work(initial_state, WORK_DEPTH, 0, &mut work_queue);
        },
        None => {},
    }
    assert(state_views(work_queue@) =~= engine_pool(grid(board)));
    work_queue
}

/// What a search of the pool in its order finds: the answer of the first
/// state that has one.
pub open spec fn first_answer(pool: Seq<SearchState>) -> Option<Seq<Seq<int>>>
    decreases pool.len(),
{
    if pool.len() == 0 {
        None
    } else {
        match search(pool[0]) {
            Some(g) => Some(g),
            None => first_answer(pool.drop_first()),
        }
    }
}

/// The pool of work for the grid `g`: the expansion of its root state,
/// and nothing for a grid that is not well formed.
pub open spec fn engine_pool(g: Seq<Seq<int>>) -> Seq<SearchState> {
    if well_formed(g) {
        work_pool(SearchState::root(g), WORK_DEPTH as nat, 0)
    } else {
        Seq::empty()
    }
}

/// The model of what a worker was handed.
pub open spec fn handed(item: Option<SudokuGameProperties>) -> Option<SearchState> {
    match item {
        Some(state) => Some(state@),
        None => None,
    }
}

/// What the engine answers for the grid `g`.
pub open spec fn engine_answer(g: Seq<Seq<int>>) -> Option<Seq<Seq<int>>> {
    first_answer(engine_pool(g))
}

/// How a search over a pool ended.
#[derive(Clone, Copy, Debug, PartialEq, Eq)]
pub enum Outcome {
    /// A solution was found.
    Solved(Board),
    /// Every state of the pool was searched and none has a solution.
    NoSolution,
    /// No solution was found, but the pool was not searched to its end: a
    /// worker was lost, or states were left in the queue.
    Incomplete,
}

/// The state that the workers of a search share: the queue of states not
/// yet handed out, the slot for the answer, and the stop flag.
pub struct Dispatcher {
    queue: VecDeque<SudokuGameProperties>,
    solution: Option<Board>,
    stop: bool,
}

/// The model of a dispatcher.
pub struct Dispatch {
    /// The states not yet handed out, first in first out.
    pub pending: Seq<SearchState>,
    /// The recorded answer.
    pub solution: Option<Seq<Seq<int>>>,
    /// Whether the workers were told to stop.
    pub stopped: bool,
}

impl Dispatch {
    /// The dispatcher as a search starts from it: the pool in the queue,
    /// no answer, the stop flag down.
    pub open spec fn fresh(pool: Seq<SearchState>) -> Dispatch {
        Dispatch { pending: pool, solution: None, stopped: false }
    }

    /// A worker asks for work and gets `item`: the first pending state,
    /// which leaves the queue, or nothing, where the stop flag is up or
    /// the queue is empty.
    pub open spec fn hands_out(self, next: Dispatch, item: Option<SearchState>) -> bool {
        &&& next.solution == self.solution
        &&& next.stopped == self.stopped
        &&& match item {
            Some(s) => {
                &&& !self.stopped
                &&& self.pending.len() > 0
                &&& s == self.pending[0]
                &&& next.pending == self.pending.drop_first()
            },
            None => {
                &&& self.stopped || self.pending.len() == 0
                &&& next.pending == self.pending
            },
        }
    }

    /// A worker reports the answer `a`: it is kept if it is the first,
    /// and the stop flag goes up.
    pub open spec fn records(self, next: Dispatch, a: Seq<Seq<int>>) -> bool {
        &&& next.solution == (if self.solution is None {
            Some(a)
        } else {
            self.solution
        })
        &&& next.stopped
        &&& next.pending == self.pending
    }

    /// The stop flag goes up; the answer and the queue stay as they are.
    pub open spec fn raises_stop(self, next: Dispatch) -> bool {
        &&& next.stopped
        &&& next.solution == self.solution
        &&& next.pending == self.pending
    }
}

impl View for Dispatcher {
    type V = Dispatch;

    closed spec fn view(&self) -> Dispatch {
        Dispatch {
            pending: state_views(self.queue@),
            solution: answer(self.solution),
            stopped: self.stop,
        }
    }
}

impl Dispatcher {
    /// A dispatcher that holds the pool in its order, with no answer and
    /// the stop flag down.
    pub fn new(pool: Vec<SudokuGameProperties>) -> (d: Dispatcher)
        ensures
            d@ == Dispatch::fresh(state_views(pool@)),
    {
        let mut pool = pool;
        let mut queue: VecDeque<SudokuGameProperties> = VecDeque::new();
        let ghost all = pool@;
        while pool.len() > 0
            invariant
                pool@ + queue@ == all,
            decreases pool.len(),
        {
            let ghost before = pool@;
            let ghost held = queue@;
            let item = pool.pop().unwrap();
            queue.push_front(item);
            assert(pool@ + queue@ =~= before + held);
        }
        assert(queue@ =~= all);
        Dispatcher { queue, solution: None, stop: false }
    }

    /// Hands out the next state. A worker calls this before each unit of
    /// work and exits on `None`: the stop flag is up, or the queue is
    /// empty.
    pub fn next_item(&mut self) -> (item: Option<SudokuGameProperties>)
        ensures
            old(self)@.hands_out(final(self)@, handed(item)),
    {
        if self.stop {
            return None;
        }
        let item = self.queue.pop_front();
        proof {
            if item is Some {
                assert(state_views(self.queue@) =~= state_views(old(self).queue@).drop_first());
            }
        }
        item
    }

    /// Reports an answer that a worker found, and raises the stop flag.
    /// The first report is kept; a later one is skipped. Returns whether
    /// this report was the first.
    pub fn record(&mut self, board: Board) -> (first: bool)
        ensures
            first == (old(self)@.solution is None),
            old(self)@.records(final(self)@, grid(board)),
    {
        let first = self.solution.is_none();
        if first {
            self.solution = Some(board);
        }
        self.stop = true;
        first
    }

    /// Raises the stop flag; the answer and the queue stay as they are.
    pub fn stop(&mut self)
        ensures
            old(self)@.raises_stop(final(self)@),
    {
        self.stop = true;
    }

    /// Whether the stop flag is up.
    pub fn is_stopped(&self) -> (stopped: bool)
        ensures
            stopped == self@.stopped,
    {
        self.stop
    }

    /// How many states are still in the queue.
    pub fn pending(&self) -> (n: usize)
        ensures
            n == self@.pending.len(),
    {
        self.queue.len()
    }

    /// The recorded answer, if there is one.
    pub fn solution(&self) -> (solution: Option<Board>)
        ensures
            answer(solution) == self@.solution,
    {
        self.solution
    }

    /// Closes the search, once every worker has returned. A recorded
    /// answer stands whatever else happened. Without one, the search
    /// counts as exhausted only if no worker was lost and the queue is
    /// empty.
    pub fn finish(self, lost_workers: usize) -> (outcome: Outcome)
        ensures
            match outcome {
                Outcome::Solved(b) => self@.solution == Some(grid(b)),
                Outcome::NoSolution => self@.solution is None && lost_workers == 0
                    && self@.pending.len() == 0,
                Outcome::Incomplete => self@.solution is None && (lost_workers > 0
                    || self@.pending.len() > 0),
            },
    {
        match self.solution {
            Some(b) => Outcome::Solved(b),
            None => {
                if lost_workers == 0 && self.queue.len() == 0 {
                    Outcome::NoSolution
                } else {
                    Outcome::Incomplete
                }
            },
        }
    }
}

/// What a search of a pool of consistent states finds is a filling of one
/// of them, and it finds nothing only where none of them has a filling.
pub proof fn lemma_first_answer(pool: Seq<SearchState>)
    requires
        forall|k: int| 0 <= k < pool.len() ==> (#[trigger] pool[k]).consistent(),
    ensures
        match first_answer(pool) {
            Some(g) => covers(pool, g),
            None => forall|g: Seq<Seq<int>>| !covers(pool, g),
        },
    decreases pool.len(),
{
    if pool.len() > 0 {
        let rest = pool.drop_first();
        lemma_search(pool[0]);
        match search(pool[0]) {
            Some(g) => {
                assert(fills(pool[0].grid, g));
            },
            None => {
                assert forall|k: int| 0 <= k < rest.len() implies (#[trigger] rest[k]).consistent() by {
                    assert(rest[k] == pool[k + 1]);
                }
                lemma_first_answer(rest);
                match first_answer(rest) {
                    Some(g) => {
                        let k = choose|k: int| 0 <= k < rest.len() && fills((#[trigger] rest[k]).grid, g);
                        assert(pool[k + 1] == rest[k]);
                    },
                    None => {
                        assert forall|g: Seq<Seq<int>>| !covers(pool, g) by {
                            if covers(pool, g) {
                                let k = choose|k: int|
                                    0 <= k < pool.len() && fills((#[trigger] pool[k]).grid, g);
                                if k > 0 {
                                    assert(rest[k - 1] == pool[k]);
                                    assert(covers(rest, g));
                                }
                            }
                        }
                    },
                }
            },
        }
    }
}

/// A search of two pools one behind the other finds what a search of the
/// first finds, and what a search of the second finds if that is nothing.
pub proof fn lemma_first_answer_of_two(a: Seq<SearchState>, b: Seq<SearchState>)
    ensures
        first_answer(a + b) == (if first_answer(a) is Some {
            first_answer(a)
        } else {
            first_answer(b)
        }),
    decreases a.len(),
{
    if a.len() == 0 {
        assert(a + b =~= b);
    } else {
        assert((a + b)[0] == a[0]);
        assert((a + b).drop_first() =~= a.drop_first() + b);
        lemma_first_answer_of_two(a.drop_first(), b);
    }
}

/// Splitting the search changes nothing: a search of the pool of a state,
/// in its order, finds what the depth-first search of the state finds.
pub proof fn lemma_pool_search(s: SearchState, depth: nat, current: nat)
    ensures
        first_answer(work_pool(s, depth, current)) == search(s),
    decreases depth - current, 11int,
{
    lemma_select(s.entries);
    if current >= depth || s.entries.len() == 0 || select(s.entries) is None {
        // the state stands for its whole subtree
        let pool = work_pool(s, depth, current);
        assert(pool =~= seq![s]);
        assert(pool.drop_first() =~= Seq::<SearchState>::empty());
        assert(first_answer(pool.drop_first()) is None);
    } else {
        lemma_branch_search(s, select(s.entries)->0, 1, depth, current);
    }
}

/// A search of the branch pools of entry `i` from `from` up finds what the
/// depth-first search finds in these branches.
pub proof fn lemma_branch_search(s: SearchState, i: int, from: int, depth: nat, current: nat)
    requires
        0 <= i < s.entries.len(),
        1 <= from,
        current < depth,
    ensures
        first_answer(branch_pools(s, i, from, depth, current)) == search_from(s, i, from),
    decreases depth - current, 10 - from,
{
    if from <= 9 {
        let e = s.entries[i];
        let child = s.place(e.row, e.col, from);
        let rest = branch_pools(s, i, from + 1, depth, current);
        lemma_branch_search(s, i, from + 1, depth, current);
        if e.values.contains(from) {
            assert(has_entry(s.entries, e.row, e.col));
            lemma_without_cell(s.entries, e.row, e.col);
            lemma_pool_search(child, depth, (current + 1) as nat);
            lemma_first_answer_of_two(work_pool(child, depth, (current + 1) as nat), rest);
        }
    }
}

/// The engine answers a well-formed grid with what the depth-first search
/// of its root finds, and any other grid with nothing.
pub proof fn lemma_engine_is_search(g: Seq<Seq<int>>)
    ensures
        engine_answer(g) == (if well_formed(g) {
            search(SearchState::root(g))
        } else {
            None
        }),
{
    if well_formed(g) {
        lemma_pool_search(SearchState::root(g), WORK_DEPTH as nat, 0);
    }
}

/// The engine is sound and complete: its answer is a solution of the
/// grid, a solved grid that keeps the fixed values, and it answers `None`
/// exactly when the grid has no solution. A grid with a value out of
/// range, or with a fixed value repeated in a row, a column or a block,
/// has none.
pub proof fn lemma_engine_answer(g: Seq<Seq<int>>)
    requires
        shaped(g),
    ensures
        match engine_answer(g) {
            Some(a) => solution_of(g, a),
            None => !has_solution(g),
        },
{
    if well_formed(g) {
        let root = SearchState::root(g);
        let pool = engine_pool(g);
        lemma_initial_entries(g);
        lemma_work_pool(root, WORK_DEPTH as nat, 0);
        lemma_first_answer(pool);
        lemma_fillings_are_solutions(g);
        match engine_answer(g) {
            Some(a) => {
                assert(covers(pool, a));
            },
            None => {
                assert forall|a: Seq<Seq<int>>| !fills(g, a) by {
                    if fills(root.grid, a) {
                        assert(covers(pool, a));
                    }
                }
            },
        }
    } else {
        lemma_defect_has_no_solution(g);
    }
}

/// Who searches which state of the pool, and in what order, does not
/// change the outcome: whatever the search of any state of the pool finds
/// is a solution of the grid, and some state of the pool has an answer
/// exactly when the grid has a solution. A grid without a solution is
/// reported as such by every schedule that searches the whole pool.
pub proof fn lemma_any_schedule(g: Seq<Seq<int>>)
    requires
        shaped(g),
    ensures
        forall|k: int|
            0 <= k < engine_pool(g).len() ==> match search(#[trigger] engine_pool(g)[k]) {
                Some(a) => solution_of(g, a),
                None => true,
            },
        has_solution(g) <==> exists|k: int|
            0 <= k < engine_pool(g).len() && search(#[trigger] engine_pool(g)[k]) is Some,
{
    let pool = engine_pool(g);
    if well_formed(g) {
        let root = SearchState::root(g);
        lemma_initial_entries(g);
        lemma_work_pool(root, WORK_DEPTH as nat, 0);
        lemma_fillings_are_solutions(g);
        assert forall|k: int| 0 <= k < pool.len() implies match search(#[trigger] pool[k]) {
            Some(a) => solution_of(g, a),
            None => true,
        } by {
            lemma_search(pool[k]);
            if search(pool[k]) is Some {
                assert(covers(pool, search(pool[k])->0));
            }
        }
        if has_solution(g) {
            let a = choose|a: Seq<Seq<int>>| solution_of(g, a);
            assert(fills(root.grid, a));
            assert(covers(pool, a));
            let k = choose|k: int| 0 <= k < pool.len() && fills((#[trigger] pool[k]).grid, a);
            lemma_search(pool[k]);
            assert(search(pool[k]) is Some);
        }
        if exists|k: int| 0 <= k < pool.len() && search(#[trigger] pool[k]) is Some {
            let k = choose|k: int| 0 <= k < pool.len() && search(#[trigger] pool[k]) is Some;
            assert(solution_of(g, search(pool[k])->0));
        }
    } else {
        lemma_defect_has_no_solution(g);
    }
}

/// Solves a board on the calling thread: builds the pool, searches its
/// states in order and stops at the first answer.
///
/// The answer is a solution of the board: a solved grid, with every cell
/// one of `1..=9` and no value twice in a row, a column or a block, that
/// keeps the fixed values. `None` is returned exactly when the board has
/// no solution; a board that is not well formed has none and is not
/// searched. The same board always gets the same answer.
pub fn solve(board: Board) -> (solution: Option<Board>)
    ensures
        answer(solution) == engine_answer(grid(board)),
        match solution {
            Some(b) => solution_of(grid(board), grid(b)),
            None => !has_solution(grid(board)),
        },
{
    let ghost root = grid(board);
    let pool = build_work_pool(board);
    let mut dispatcher = Dispatcher::new(pool);
    proof {
        lemma_engine_answer(root);
    }
    loop
        invariant
            dispatcher@.stopped <==> dispatcher@.solution is Some,
            match dispatcher@.solution {
                Some(g) => engine_answer(root) == Some(g),
                None => engine_answer(root) == first_answer(dispatcher@.pending),
            },
        ensures
            dispatcher@.solution is Some || dispatcher@.pending.len() == 0,
        decreases dispatcher@.pending.len(),
    {
        match dispatcher.next_item() {
            Some(state) => {
                if let Some(found) = solve_state(state) {
                    dispatcher.record(found);
                }
            },
            None => {
                break ;
            },
        }
    }
    dispatcher.solution()
}

} // verus!
