//! Boards with a value repeated in a row.

use vstd::prelude::*;
use crate::engine::engine_answer;
use crate::grid::{on_grid, peers, value_at};
use crate::solution::{extends, has_solution, lemma_defect_has_no_solution, valid_grid};

verus! {

/// The cells `(r, c1)` and `(r, c2)` are two cells of one row that hold
/// the same fixed value.
pub open spec fn row_conflict(b: Seq<Seq<int>>, r: int, c1: int, c2: int) -> bool {
    &&& on_grid(r, c1)
    &&& on_grid(r, c2)
    &&& c1 != c2
    &&& value_at(b, r, c1) != 0
    &&& value_at(b, r, c1) == value_at(b, r, c2)
}

/// A board with a value repeated in a row is not valid, and it has no
/// solution: every grid that keeps its fixed values repeats that value
/// too.
pub proof fn lemma_row_conflict_has_no_solution(b: Seq<Seq<int>>, r: int, c1: int, c2: int)
    requires
        row_conflict(b, r, c1, c2),
    ensures
        !valid_grid(b),
        forall|g: Seq<Seq<int>>| extends(b, g) ==> !valid_grid(g),
        !has_solution(b),
{
    assert(peers(r, c1, r, c2));
    assert forall|g: Seq<Seq<int>>| extends(b, g) implies !valid_grid(g) by {
        assert(value_at(g, r, c1) == value_at(b, r, c1));
        assert(value_at(g, r, c2) == value_at(b, r, c2));
    }
    lemma_defect_has_no_solution(b);
}

/// The engine reports every board with a value repeated in a row as
/// having no solution, whatever else the board holds.
pub proof fn lemma_row_conflict_is_reported(b: Seq<Seq<int>>, r: int, c1: int, c2: int)
    requires
        row_conflict(b, r, c1, c2),
    ensures
        engine_answer(b) is None,
{
    lemma_row_conflict_has_no_solution(b, r, c1, c2);
}

} // verus!
