//! The work generator: a depth-bounded expansion of the search tree into a
//! flat pool of independent states.

use vstd::prelude::*;
use crate::candidates::{find_min_cell, fresh, legal_values, lemma_select, select, selects};
use crate::grid::{value_at, N};
use crate::propagation::lemma_eliminate_keeps_tracking;
use crate::search::{lemma_place_keeps_sound, SearchState, SudokuGameProperties};
use crate::solution::{fills, lemma_filling_ascends, lemma_filling_descends, lemma_with_value};

verus! {

/// The models of a sequence of states, in the same order.
pub open spec fn state_views(states: Seq<SudokuGameProperties>) -> Seq<SearchState> {
    Seq::new(states.len(), |i: int| states[i]@)
}

/// The pool that the expansion of `s` yields when `current` levels out of
/// `depth` are already behind it. A state at the depth limit, a state
/// with a full grid and a state with no selectable entry each stand for
/// themselves; any other state is replaced by the pools of its branches,
/// the values of the selected entry taken in ascending order.
pub open spec fn work_pool(s: SearchState, depth: nat, current: nat) -> Seq<SearchState>
    decreases depth - current, 11int,
{
    if current >= depth || s.entries.len() == 0 {
        seq![s]
    } else {
        match select(s.entries) {
            Some(i) => branch_pools(s, i, 1, depth, current),
            None => seq![s],
        }
    }
}

/// The pools of the branches of entry `i` for its values from `from` up.
pub open spec fn branch_pools(s: SearchState, i: int, from: int, depth: nat, current: nat) -> Seq<
    SearchState,
>
    decreases depth - current, 10 - from,
{
    if from < 1 || from > 9 || current >= depth {
        Seq::empty()
    } else {
        let rest = branch_pools(s, i, from + 1, depth, current);
        if s.entries[i].values.contains(from) {
            work_pool(s.place(s.entries[i].row, s.entries[i].col, from), depth, current + 1) + rest
        } else {
            rest
        }
    }
}

/// Some state of the pool has `g` as a filling of its grid.
pub open spec fn covers(pool: Seq<SearchState>, g: Seq<Seq<int>>) -> bool {
    exists|k: int| 0 <= k < pool.len() && fills((#[trigger] pool[k]).grid, g)
}

/// The pool of a consistent state is never empty, its states are
/// consistent, and between them they have exactly the fillings of the
/// state's grid: none is lost and none is invented.
pub proof fn lemma_work_pool(s: SearchState, depth: nat, current: nat)
    requires
        s.consistent(),
    ensures
        work_pool(s, depth, current).len() >= 1,
        forall|k: int|
            0 <= k < work_pool(s, depth, current).len() ==> (#[trigger] work_pool(
                s,
                depth,
                current,
            )[k]).consistent(),
        forall|g: Seq<Seq<int>>| #[trigger]
            fills(s.grid, g) ==> covers(work_pool(s, depth, current), g),
        forall|g: Seq<Seq<int>>| #[trigger]
            covers(work_pool(s, depth, current), g) ==> fills(s.grid, g),
    decreases depth - current, 11int,
{
    let pool = work_pool(s, depth, current);
    if current >= depth || s.entries.len() == 0 || select(s.entries) is None {
        assert(pool =~= seq![s]);
        assert forall|g: Seq<Seq<int>>| #[trigger] fills(s.grid, g) implies covers(pool, g) by {
            assert(fills(pool[0].grid, g));
        }
    } else {
        let i = select(s.entries)->0;
        assert(selects(s.entries, i));
        lemma_branch_pools(s, i, 1, depth, current);
        let e = s.entries[i];
        assert(fresh(s.grid, e));
        assert forall|g: Seq<Seq<int>>| #[trigger] fills(s.grid, g) implies covers(pool, g) by {
            lemma_filling_descends(s.grid, g, e.row, e.col);
        }
        // the selected entry has a value, so there is at least one branch
        assert(e.values.len() > 0);
        assert(e.values !== Set::<int>::empty());
        let w = e.values.choose();
        assert(legal_values(s.grid, e.row, e.col).contains(w));
        lemma_branch_nonempty(s, i, 1, w, depth, current);
    }
}

/// The branch pools from `from` up are consistent, each of their fillings
/// is a filling of `s`, and they cover every filling of `s` whose value
/// at the branching cell is `from` or more.
pub proof fn lemma_branch_pools(s: SearchState, i: int, from: int, depth: nat, current: nat)
    requires
        s.consistent(),
        0 <= i < s.entries.len(),
        1 <= from,
        current < depth,
    ensures
        forall|k: int|
            0 <= k < branch_pools(s, i, from, depth, current).len() ==> (#[trigger] branch_pools(
                s,
                i,
                from,
                depth,
                current,
            )[k]).consistent(),
        forall|g: Seq<Seq<int>>| #[trigger]
            covers(branch_pools(s, i, from, depth, current), g) ==> fills(s.grid, g),
        forall|g: Seq<Seq<int>>|
            #[trigger] fills(s.grid, g) && value_at(g, s.entries[i].row, s.entries[i].col) >= from
                ==> covers(branch_pools(s, i, from, depth, current), g),
    decreases depth - current, 10 - from,
{
    let e = s.entries[i];
    let all = branch_pools(s, i, from, depth, current);
    assert(fresh(s.grid, e));
    if from > 9 {
        assert forall|g: Seq<Seq<int>>| #[trigger] fills(s.grid, g) && value_at(g, e.row, e.col)
            >= from implies covers(all, g) by {
            lemma_filling_descends(s.grid, g, e.row, e.col);
        }
    } else {
        let rest = branch_pools(s, i, from + 1, depth, current);
        lemma_branch_pools(s, i, from + 1, depth, current);
        if e.values.contains(from) {
            let child = s.place(e.row, e.col, from);
            let head = work_pool(child, depth, (current + 1) as nat);
            assert(legal_values(s.grid, e.row, e.col).contains(from));
            lemma_with_value(s.grid, e.row, e.col, from);
            lemma_eliminate_keeps_tracking(s.grid, s.entries, e.row, e.col, from);
            lemma_work_pool(child, depth, (current + 1) as nat);
            assert(all == head + rest);
            assert forall|k: int| 0 <= k < all.len() implies (#[trigger] all[k]).consistent() by {
                if k < head.len() {
                    assert(all[k] == head[k]);
                } else {
                    assert(all[k] == rest[k - head.len()]);
                }
            }
            assert forall|g: Seq<Seq<int>>| #[trigger] covers(all, g) implies fills(s.grid, g) by {
                let k = choose|k: int| 0 <= k < all.len() && fills((#[trigger] all[k]).grid, g);
                if k < head.len() {
                    assert(all[k] == head[k]);
                    assert(covers(head, g));
                    assert(fills(child.grid, g));
                    lemma_filling_ascends(s.grid, g, e.row, e.col, from);
                } else {
                    assert(all[k] == rest[k - head.len()]);
                    assert(covers(rest, g));
                }
            }
            assert forall|g: Seq<Seq<int>>| #[trigger] fills(s.grid, g) && value_at(g, e.row, e.col)
                >= from implies covers(all, g) by {
                if value_at(g, e.row, e.col) == from {
                    lemma_filling_descends(s.grid, g, e.row, e.col);
                    assert(fills(child.grid, g));
                    assert(covers(head, g));
                    let k = choose|k: int| 0 <= k < head.len() && fills((#[trigger] head[k]).grid, g);
                    assert(all[k] == head[k]);
                } else {
                    assert(covers(rest, g));
                    let k = choose|k: int| 0 <= k < rest.len() && fills((#[trigger] rest[k]).grid, g);
                    assert(all[k + head.len()] == rest[k]);
                }
            }
        } else {
            assert(all == rest);
            assert forall|g: Seq<Seq<int>>| #[trigger] fills(s.grid, g) && value_at(g, e.row, e.col)
                >= from implies covers(all, g) by {
                lemma_filling_descends(s.grid, g, e.row, e.col);
                assert(legal_values(s.grid, e.row, e.col).contains(value_at(g, e.row, e.col)));
            }
        }
    }
}

/// The pool of a sound state holds only sound states: every grid in it is
/// well formed, and its entries track it.
pub proof fn lemma_work_pool_is_sound(s: SearchState, depth: nat, current: nat)
    requires
        s.sound(),
    ensures
        forall|k: int|
            0 <= k < work_pool(s, depth, current).len() ==> (#[trigger] work_pool(
                s,
                depth,
                current,
            )[k]).sound(),
    decreases depth - current, 11int,
{
    lemma_select(s.entries);
    if current >= depth || s.entries.len() == 0 || select(s.entries) is None {
        assert(work_pool(s, depth, current) =~= seq![s]);
    } else {
        let i = select(s.entries)->0;
        lemma_branch_pools_are_sound(s, i, 1, depth, current);
        assert(work_pool(s, depth, current) == branch_pools(s, i, 1, depth, current));
    }
}

/// The branch pools of a sound state hold only sound states.
pub proof fn lemma_branch_pools_are_sound(
    s: SearchState,
    i: int,
    from: int,
    depth: nat,
    current: nat,
)
    requires
        s.sound(),
        0 <= i < s.entries.len(),
        1 <= from,
        current < depth,
    ensures
        forall|k: int|
            0 <= k < branch_pools(s, i, from, depth, current).len() ==> (#[trigger] branch_pools(
                s,
                i,
                from,
                depth,
                current,
            )[k]).sound(),
    decreases depth - current, 10 - from,
{
    if from <= 9 {
        let e = s.entries[i];
        let all = branch_pools(s, i, from, depth, current);
        let rest = branch_pools(s, i, from + 1, depth, current);
        lemma_branch_pools_are_sound(s, i, from + 1, depth, current);
        if e.values.contains(from) {
            let child = s.place(e.row, e.col, from);
            let head = work_pool(child, depth, (current + 1) as nat);
            lemma_place_keeps_sound(s, i, from);
            lemma_work_pool_is_sound(child, depth, (current + 1) as nat);
            assert forall|k: int| 0 <= k < all.len() implies (#[trigger] all[k]).sound() by {
                if k < head.len() {
                    assert(all[k] == head[k]);
                } else {
                    assert(all[k] == rest[k - head.len()]);
                }
            }
        }
    }
}

/// A value of the branching entry at or above `from` gives the branch
/// pools at least one state.
proof fn lemma_branch_nonempty(s: SearchState, i: int, from: int, w: int, depth: nat, current: nat)
    requires
        s.consistent(),
        0 <= i < s.entries.len(),
        1 <= from <= w <= 9,
        s.entries[i].values.contains(w),
        current < depth,
    ensures
        branch_pools(s, i, from, depth, current).len() >= 1,
    decreases depth - current, 10 - from,
{
    let e = s.entries[i];
    assert(fresh(s.grid, e));
    if e.values.contains(from) {
        assert(legal_values(s.grid, e.row, e.col).contains(from));
        lemma_with_value(s.grid, e.row, e.col, from);
        lemma_eliminate_keeps_tracking(s.grid, s.entries, e.row, e.col, from);
        lemma_work_pool(s.place(e.row, e.col, from), depth, (current + 1) as nat);
    } else {
        lemma_branch_nonempty(s, i, from + 1, w, depth, current);
    }
}

/// Expands `state` down to `depth` levels, `current` of them already
/// taken, and appends the states reached to `queue`: the state itself at
/// the depth limit, with a full grid, or with no selectable entry; the
/// expansions of its branches otherwise, the values of the selected entry
/// taken in ascending order. The appended states are a function of the
/// arguments alone.
pub fn generate_work(
    state: SudokuGameProperties,
    depth: usize,
    current: usize,
    queue: &mut Vec<SudokuGameProperties>,
)
    ensures
        state_views(final(queue)@) == state_views(old(queue)@) + work_pool(
            state@,
            depth as nat,
            current as nat,
        ),
    decreases depth - current, 11int,
{
    let ghost s = state@;
    let ghost start = state_views(queue@);
    if current >= depth || state.cells_possibilities().is_empty() {
        queue.push(state);
        assert(state_views(queue@) =~= start + seq![s]);
        return ;
    }
    match find_min_cell(state.cells_possibilities().as_slice()) {
        Some(best_index) => {
            let entry = state.cells_possibilities()[best_index];
            let ghost i = best_index as int;
            let ghost e = s.entries[i];
            proof {
                lemma_select(s.entries);
            }

            let mut value: usize = 1;
            while value <= N
                invariant
                    1 <= value <= 10,
                    current < depth,
                    s == state@,
                    s.consistent(),
                    i == best_index as int,
                    0 <= i < s.entries.len(),
                    e == s.entries[i],
                    e == entry@,
                    state_views(queue@) + branch_pools(
                        s,
                        i,
                        value as int,
                        depth as nat,
                        current as nat,
                    ) == start + branch_pools(s, i, 1, depth as nat, current as nat),
                decreases 10 - value,
            {
                let ghost before = state_views(queue@);
                let ghost rest = branch_pools(s, i, value + 1, depth as nat, current as nat);
                if entry.possibles_values.contains(value) {
                    let new_state = state.branch(best_index, value);
                    let ghost head = work_pool(new_state@, depth as nat, (current + 1) as nat);
                    generate_work(new_state, depth, current + 1, queue);
                    assert(state_views(queue@) + rest =~= before + (head + rest));
                }
                value += 1;
            }
            assert(state_views(queue@) =~= state_views(queue@) + Seq::<SearchState>::empty());
        },
        None => {
            proof {
                lemma_select(s.entries);
            }
            queue.push(state);
            assert(state_views(queue@) =~= start + seq![s]);
        },
    }
}

} // verus!
