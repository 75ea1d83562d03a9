//! Runs of a search under any schedule of its workers. A run starts with
//! the pool in the queue of the dispatcher; a worker takes a state, and
//! later reports what its search of that state found, or is lost with it;
//! the stop flag may go up at any time. Whatever the order of these
//! steps, a recorded answer is a solution of the root, and a run that ends
//! with nothing recorded, nothing lost and nothing left has shown that
//! the root has no solution. The steps are what the dispatcher's methods
//! do: each lemma at the end of this file names one.

use vstd::prelude::*;
use crate::candidates::lemma_initial_entries;
use crate::engine::{engine_pool, Dispatch};
use crate::grid::shaped;
use crate::search::{lemma_search, search, SearchState};
use crate::solution::{
    fills, has_solution, lemma_defect_has_no_solution, lemma_fillings_are_solutions, solution_of,
    well_formed,
};
use crate::engine::WORK_DEPTH;
use crate::work::{covers, lemma_work_pool, lemma_work_pool_is_sound};

verus! {

/// A moment of a run: what the dispatcher holds, the states that are out
/// with workers, and how many workers were lost.
pub struct Run {
    pub dispatch: Dispatch,
    pub in_flight: Seq<SearchState>,
    pub lost: nat,
}

impl Run {
    /// The start of a run over `pool`.
    pub open spec fn start(pool: Seq<SearchState>) -> Run {
        Run { dispatch: Dispatch::fresh(pool), in_flight: Seq::empty(), lost: 0 }
    }

    /// A worker takes the next state from the queue.
    pub open spec fn takes(self, next: Run) -> bool {
        &&& !self.dispatch.stopped
        &&& self.dispatch.pending.len() > 0
        &&& next.dispatch.pending == self.dispatch.pending.drop_first()
        &&& next.dispatch.solution == self.dispatch.solution
        &&& next.dispatch.stopped == self.dispatch.stopped
        &&& next.in_flight == self.in_flight.push(self.dispatch.pending[0])
        &&& next.lost == self.lost
    }

    /// The worker that holds state `k` of those in flight ends its search
    /// and reports: an answer is recorded if it is the first and raises
    /// the stop flag; no answer changes nothing.
    pub open spec fn reports(self, next: Run, k: int) -> bool {
        &&& 0 <= k < self.in_flight.len()
        &&& next.in_flight == self.in_flight.remove(k)
        &&& next.lost == self.lost
        &&& next.dispatch.pending == self.dispatch.pending
        &&& match search(self.in_flight[k]) {
            Some(a) => {
                &&& next.dispatch.stopped
                &&& next.dispatch.solution == (if self.dispatch.solution is None {
                    Some(a)
                } else {
                    self.dispatch.solution
                })
            },
            None => {
                &&& next.dispatch.stopped == self.dispatch.stopped
                &&& next.dispatch.solution == self.dispatch.solution
            },
        }
    }

    /// The worker that holds state `k` of those in flight is lost, and the
    /// state with it.
    pub open spec fn loses(self, next: Run, k: int) -> bool {
        &&& 0 <= k < self.in_flight.len()
        &&& next.in_flight == self.in_flight.remove(k)
        &&& next.lost == self.lost + 1
        &&& next.dispatch == self.dispatch
    }

    /// The stop flag goes up.
    pub open spec fn stops(self, next: Run) -> bool {
        &&& next.dispatch.stopped
        &&& next.dispatch.pending == self.dispatch.pending
        &&& next.dispatch.solution == self.dispatch.solution
        &&& next.in_flight == self.in_flight
        &&& next.lost == self.lost
    }

    /// One step of a run.
    pub open spec fn step(self, next: Run) -> bool {
        ||| self.takes(next)
        ||| exists|k: int| self.reports(next, k)
        ||| exists|k: int| self.loses(next, k)
        ||| self.stops(next)
    }

    /// The state `s` is in the queue or out with a worker.
    pub open spec fn holds(self, s: SearchState) -> bool {
        self.dispatch.pending.contains(s) || self.in_flight.contains(s)
    }

    /// Some state that the run still holds has `g` as a solution.
    pub open spec fn within_reach(self, g: Seq<Seq<int>>) -> bool {
        exists|s: SearchState| #[trigger] self.holds(s) && solution_of(s.grid, g)
    }

    /// What holds at every moment of a run over the pool of `root`: the
    /// states held are sound and their solutions are solutions of `root`;
    /// a recorded answer is a solution of `root`; and while none is
    /// recorded and no worker was lost, every solution of `root` is still
    /// within reach.
    pub open spec fn accounts_for(self, root: Seq<Seq<int>>) -> bool {
        &&& forall|s: SearchState| #[trigger] self.holds(s) ==> s.sound()
        &&& forall|g: Seq<Seq<int>>| #[trigger] self.within_reach(g) ==> solution_of(root, g)
        &&& match self.dispatch.solution {
            Some(a) => solution_of(root, a),
            None => self.lost == 0 ==> forall|g: Seq<Seq<int>>| #[trigger]
                solution_of(root, g) ==> self.within_reach(g),
        }
    }

    /// The run is over without an answer, with no worker lost and no
    /// state left: the outcome that is reported as "no solution".
    pub open spec fn ended_without_answer(self) -> bool {
        &&& self.dispatch.solution is None
        &&& self.dispatch.pending.len() == 0
        &&& self.in_flight.len() == 0
        &&& self.lost == 0
    }
}

/// A run over the pool of a grid starts in a state that accounts for the
/// grid.
pub proof fn lemma_start_accounts(root: Seq<Seq<int>>)
    requires
        shaped(root),
    ensures
        Run::start(engine_pool(root)).accounts_for(root),
{
    let pool = engine_pool(root);
    let run = Run::start(pool);
    if well_formed(root) {
        lemma_initial_entries(root);
        lemma_work_pool(SearchState::root(root), WORK_DEPTH as nat, 0);
        lemma_work_pool_is_sound(SearchState::root(root), WORK_DEPTH as nat, 0);
        lemma_fillings_are_solutions(root);
        assert forall|s: SearchState| #[trigger] run.holds(s) implies s.sound() by {
            let k = choose|k: int| 0 <= k < pool.len() && pool[k] == s;
            assert(pool[k].sound());
        }
        assert forall|g: Seq<Seq<int>>| #[trigger] run.within_reach(g) implies solution_of(
            root,
            g,
        ) by {
            let s = choose|s: SearchState| #[trigger] run.holds(s) && solution_of(s.grid, g);
            let k = choose|k: int| 0 <= k < pool.len() && pool[k] == s;
            assert(pool[k].sound());
            lemma_fillings_are_solutions(s.grid);
            assert(fills(pool[k].grid, g));
            assert(covers(pool, g));
            assert(fills(root, g));
        }
        assert forall|g: Seq<Seq<int>>| #[trigger] solution_of(root, g) implies run.within_reach(
            g,
        ) by {
            assert(fills(SearchState::root(root).grid, g));
            assert(covers(pool, g));
            let k = choose|k: int| 0 <= k < pool.len() && fills((#[trigger] pool[k]).grid, g);
            assert(pool[k].sound());
            lemma_fillings_are_solutions(pool[k].grid);
            assert(run.holds(pool[k]));
        }
    } else {
        lemma_defect_has_no_solution(root);
        assert forall|g: Seq<Seq<int>>| #[trigger] solution_of(root, g) implies run.within_reach(
            g,
        ) by {}
    }
}

/// Every step keeps the account.
pub proof fn lemma_step_accounts(root: Seq<Seq<int>>, run: Run, next: Run)
    requires
        run.accounts_for(root),
        run.step(next),
    ensures
        next.accounts_for(root),
{
    let pending = run.dispatch.pending;
    // what the next moment holds, this moment holds too
    assert forall|s: SearchState| #[trigger] next.holds(s) implies run.holds(s) by {
        if run.takes(next) {
            if next.dispatch.pending.contains(s) {
                let k = choose|k: int|
                    0 <= k < next.dispatch.pending.len() && next.dispatch.pending[k] == s;
                assert(pending[k + 1] == s);
            } else {
                let k = choose|k: int| 0 <= k < next.in_flight.len() && next.in_flight[k] == s;
                if k < run.in_flight.len() {
                    assert(run.in_flight[k] == s);
                } else {
                    assert(pending[0] == s);
                }
            }
        } else if run.stops(next) {
        } else {
            let j = if exists|k: int| run.reports(next, k) {
                choose|k: int| run.reports(next, k)
            } else {
                choose|k: int| run.loses(next, k)
            };
            if next.in_flight.contains(s) {
                let k = choose|k: int| 0 <= k < next.in_flight.len() && next.in_flight[k] == s;
                if k < j {
                    assert(run.in_flight[k] == s);
                } else {
                    assert(run.in_flight[k + 1] == s);
                }
            }
        }
    }
    assert forall|g: Seq<Seq<int>>| #[trigger] next.within_reach(g) implies solution_of(
        root,
        g,
    ) by {
        let s = choose|s: SearchState| #[trigger] next.holds(s) && solution_of(s.grid, g);
        assert(run.holds(s));
        assert(run.within_reach(g));
    }
    if run.takes(next) {
        if next.dispatch.solution is None && next.lost == 0 {
            assert forall|g: Seq<Seq<int>>| #[trigger] solution_of(root, g) implies next.within_reach(
                g,
            ) by {
                assert(run.within_reach(g));
                let s = choose|s: SearchState| #[trigger] run.holds(s) && solution_of(s.grid, g);
                if pending.contains(s) {
                    let k = choose|k: int| 0 <= k < pending.len() && pending[k] == s;
                    if k == 0 {
                        assert(next.in_flight[run.in_flight.len() as int] == s);
                    } else {
                        assert(next.dispatch.pending[k - 1] == s);
                    }
                } else {
                    let k = choose|k: int| 0 <= k < run.in_flight.len() && run.in_flight[k] == s;
                    assert(next.in_flight[k] == s);
                }
                assert(next.holds(s));
            }
        }
    } else if run.stops(next) {
        if next.dispatch.solution is None && next.lost == 0 {
            assert forall|g: Seq<Seq<int>>| #[trigger] solution_of(root, g) implies next.within_reach(
                g,
            ) by {
                assert(run.within_reach(g));
                let s = choose|s: SearchState| #[trigger] run.holds(s) && solution_of(s.grid, g);
                assert(next.holds(s));
            }
        }
    } else if exists|k: int| run.reports(next, k) {
        let j = choose|k: int| run.reports(next, k);
        let item = run.in_flight[j];
        assert(run.holds(item));
        lemma_search(item);
        lemma_fillings_are_solutions(item.grid);
        match search(item) {
            Some(a) => {
                assert(run.within_reach(a));
            },
            None => {
                if next.dispatch.solution is None && next.lost == 0 {
                    assert forall|g: Seq<Seq<int>>| #[trigger] solution_of(root, g) implies next.within_reach(
                    g) by {
                        assert(run.within_reach(g));
                        let s = choose|s: SearchState| #[trigger] run.holds(s) && solution_of(s.grid, g);
                        if !pending.contains(s) {
                            let k = choose|k: int|
                                0 <= k < run.in_flight.len() && run.in_flight[k] == s;
                            assert(k != j);
                            if k < j {
                                assert(next.in_flight[k] == s);
                            } else {
                                assert(next.in_flight[k - 1] == s);
                            }
                        }
                        assert(next.holds(s));
                    }
                }
            },
        }
    }
}

/// Every moment of a run over the pool of a grid accounts for the grid,
/// whatever the schedule.
pub proof fn lemma_run_accounts(root: Seq<Seq<int>>, moments: Seq<Run>)
    requires
        shaped(root),
        moments.len() > 0,
        moments[0] == Run::start(engine_pool(root)),
        forall|i: int| 0 <= i < moments.len() - 1 ==> (#[trigger] moments[i]).step(moments[i + 1]),
    ensures
        forall|i: int| 0 <= i < moments.len() ==> (#[trigger] moments[i]).accounts_for(root),
    decreases moments.len(),
{
    if moments.len() == 1 {
        lemma_start_accounts(root);
    } else {
        let before = moments.drop_last();
        assert forall|i: int| 0 <= i < before.len() - 1 implies (#[trigger] before[i]).step(
            before[i + 1],
        ) by {
            assert(moments[i].step(moments[i + 1]));
        }
        lemma_run_accounts(root, before);
        let n = moments.len() - 1;
        assert(before[n - 1].accounts_for(root));
        assert(moments[n - 1].step(moments[n]));
        lemma_step_accounts(root, moments[n - 1], moments[n]);
        assert forall|i: int| 0 <= i < moments.len() implies (#[trigger] moments[i]).accounts_for(
            root,
        ) by {
            if i < n {
                assert(before[i].accounts_for(root));
            }
        }
    }
}

/// What a run may report. An answer is a solution of the grid: a solved
/// grid that keeps the fixed values. "No solution" is reported only for
/// a grid without a solution; and a run over a grid without a solution
/// never records an answer, however many workers share it and in
/// whatever order they move.
pub proof fn lemma_run_outcome(root: Seq<Seq<int>>, moments: Seq<Run>)
    requires
        shaped(root),
        moments.len() > 0,
        moments[0] == Run::start(engine_pool(root)),
        forall|i: int| 0 <= i < moments.len() - 1 ==> (#[trigger] moments[i]).step(moments[i + 1]),
    ensures
        moments.last().dispatch.solution matches Some(a) ==> solution_of(root, a),
        moments.last().ended_without_answer() ==> !has_solution(root),
        !has_solution(root) ==> moments.last().dispatch.solution is None,
{
    lemma_run_accounts(root, moments);
    let end = moments.last();
    assert(end.accounts_for(root));
    if end.ended_without_answer() {
        assert forall|g: Seq<Seq<int>>| !solution_of(root, g) by {
            if solution_of(root, g) {
                // a solution would be within reach, but nothing is held
                assert(end.within_reach(g));
                let s = choose|s: SearchState| #[trigger] end.holds(s) && solution_of(s.grid, g);
                assert(end.dispatch.pending.contains(s) || end.in_flight.contains(s));
            }
        }
    }
}

/// What `Dispatcher::next_item` does when it hands out a state is the
/// step in which a worker takes that state.
pub proof fn lemma_hand_out_is_take(
    dispatch: Dispatch,
    next: Dispatch,
    item: SearchState,
    in_flight: Seq<SearchState>,
    lost: nat,
)
    requires
        dispatch.hands_out(next, Some(item)),
    ensures
        (Run { dispatch, in_flight, lost }).takes(
            (Run { dispatch: next, in_flight: in_flight.push(item), lost }),
        ),
{
}

/// What `Dispatcher::record` does with the answer of a search is the step
/// in which the worker that held the searched state reports.
pub proof fn lemma_record_is_report(
    dispatch: Dispatch,
    next: Dispatch,
    in_flight: Seq<SearchState>,
    lost: nat,
    k: int,
    a: Seq<Seq<int>>,
)
    requires
        0 <= k < in_flight.len(),
        search(in_flight[k]) == Some(a),
        dispatch.records(next, a),
    ensures
        (Run { dispatch, in_flight, lost }).reports(
            (Run { dispatch: next, in_flight: in_flight.remove(k), lost }),
            k,
        ),
{
}

/// A worker whose search found nothing calls no method of the dispatcher;
/// that it lets go of its state is the step in which it reports nothing.
pub proof fn lemma_no_answer_is_report(
    dispatch: Dispatch,
    in_flight: Seq<SearchState>,
    lost: nat,
    k: int,
)
    requires
        0 <= k < in_flight.len(),
        search(in_flight[k]) is None,
    ensures
        (Run { dispatch, in_flight, lost }).reports(
            (Run { dispatch, in_flight: in_flight.remove(k), lost }),
            k,
        ),
{
}

/// What `Dispatcher::stop` does is the step in which the stop flag goes
/// up.
pub proof fn lemma_stop_is_stop(
    dispatch: Dispatch,
    next: Dispatch,
    in_flight: Seq<SearchState>,
    lost: nat,
)
    requires
        dispatch.raises_stop(next),
    ensures
        (Run { dispatch, in_flight, lost }).stops((Run { dispatch: next, in_flight, lost })),
{
}

} // verus!
