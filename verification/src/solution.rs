//! What it means for a grid to be valid, to be solved, and to be a filling
//! of another grid; and how one placement relates the fillings of a grid
//! to those of its successor.

use vstd::prelude::*;
use crate::grid::{
    allowed, grid, is_allowed, lemma_allowed_by_cells, on_grid, peers, related, shaped, value_at,
    Board, Cell,
};

verus! {

/// The grid `g` with the cell `(r, c)` set to `v`.
pub open spec fn with_value(g: Seq<Seq<int>>, r: int, c: int, v: int) -> Seq<Seq<int>> {
    g.update(r, g[r].update(c, v))
}

/// Every fixed value is unique within its row, its column and its block.
pub open spec fn valid_grid(g: Seq<Seq<int>>) -> bool {
    forall|r1: int, c1: int, r2: int, c2: int|
        on_grid(r1, c1) && on_grid(r2, c2) && peers(r1, c1, r2, c2) && value_at(g, r1, c1) != 0
            ==> #[trigger] value_at(g, r1, c1) != #[trigger] value_at(g, r2, c2)
}

/// No cell is empty.
pub open spec fn complete(g: Seq<Seq<int>>) -> bool {
    forall|r: int, c: int| on_grid(r, c) ==> #[trigger] value_at(g, r, c) != 0
}

/// Every cell holds `0` or one of `1..=9`.
pub open spec fn in_range(g: Seq<Seq<int>>) -> bool {
    forall|r: int, c: int| on_grid(r, c) ==> 0 <= #[trigger] value_at(g, r, c) <= 9
}

/// `g` keeps every fixed value of `b`.
pub open spec fn extends(b: Seq<Seq<int>>, g: Seq<Seq<int>>) -> bool {
    forall|r: int, c: int|
        on_grid(r, c) && value_at(b, r, c) != 0 ==> #[trigger] value_at(g, r, c) == value_at(
            b,
            r,
            c,
        )
}

/// A solved grid: full, with values `1..=9`, and no value repeated in a
/// row, a column or a block.
pub open spec fn solved(g: Seq<Seq<int>>) -> bool {
    shaped(g) && complete(g) && in_range(g) && valid_grid(g)
}

/// A grid that a search may start from: nine rows of nine cells, every
/// cell empty or one of `1..=9`, and no fixed value repeated in a row, a
/// column or a block.
pub open spec fn well_formed(g: Seq<Seq<int>>) -> bool {
    shaped(g) && in_range(g) && valid_grid(g)
}

/// `g` is a solution of `b`: a solved grid that keeps the fixed values of
/// `b`.
pub open spec fn solution_of(b: Seq<Seq<int>>, g: Seq<Seq<int>>) -> bool {
    solved(g) && extends(b, g)
}

/// `b` has at least one solution.
pub open spec fn has_solution(b: Seq<Seq<int>>) -> bool {
    exists|g: Seq<Seq<int>>| solution_of(b, g)
}

/// The value of `g` at `(r, c)` is one of `1..=9` and no peer of `(r, c)`
/// holds the same value.
pub open spec fn fits(g: Seq<Seq<int>>, r: int, c: int) -> bool {
    &&& 1 <= value_at(g, r, c) <= 9
    &&& forall|i: int, j: int|
        on_grid(i, j) && peers(r, c, i, j) ==> #[trigger] value_at(g, i, j) != value_at(g, r, c)
}

/// `g` is a filling of `b`: it keeps the fixed values of `b`, and gives
/// each empty cell of `b` a value that fits. The fixed values of `b` are
/// taken as they are, so the fillings of a grid are its solutions only
/// where the grid is well formed; the search runs on such grids alone.
pub open spec fn fills(b: Seq<Seq<int>>, g: Seq<Seq<int>>) -> bool {
    &&& shaped(g)
    &&& forall|r: int, c: int|
        on_grid(r, c) ==> if #[trigger] value_at(b, r, c) != 0 {
            value_at(g, r, c) == value_at(b, r, c)
        } else {
            fits(g, r, c)
        }
}

/// `b` has at least one filling.
pub open spec fn solvable(b: Seq<Seq<int>>) -> bool {
    exists|g: Seq<Seq<int>>| fills(b, g)
}

/// Setting one cell changes that cell and no other.
pub proof fn lemma_with_value(g: Seq<Seq<int>>, r: int, c: int, v: int)
    requires
        shaped(g),
        on_grid(r, c),
    ensures
        shaped(with_value(g, r, c, v)),
        forall|i: int, j: int|
            on_grid(i, j) ==> #[trigger] value_at(with_value(g, r, c, v), i, j) == (if i == r && j
                == c {
                v
            } else {
                value_at(g, i, j)
            }),
{
    let h = with_value(g, r, c, v);
    assert forall|i: int| 0 <= i < 9 implies (#[trigger] h[i]).len() == 9 by {
        assert(g[i].len() == 9);
    }
}

/// Apart from the cell `(r, c)`, every fixed value is unique within its
/// row, its column and its block.
pub open spec fn valid_apart_from(g: Seq<Seq<int>>, r: int, c: int) -> bool {
    forall|r1: int, c1: int, r2: int, c2: int|
        on_grid(r1, c1) && on_grid(r2, c2) && peers(r1, c1, r2, c2) && !(r1 == r && c1 == c) && !(
        r2 == r && c2 == c) && value_at(g, r1, c1) != 0 ==> #[trigger] value_at(g, r1, c1)
            != #[trigger] value_at(g, r2, c2)
}

/// No peer of `(r, c)` holds `v`.
pub open spec fn clear_of(g: Seq<Seq<int>>, r: int, c: int, v: int) -> bool {
    forall|i: int, j: int| on_grid(i, j) && peers(r, c, i, j) ==> #[trigger] value_at(g, i, j) != v
}

/// When a placement leaves a valid grid: exactly when the other cells are
/// valid among themselves and no peer of the cell holds the placed value.
pub proof fn lemma_valid_after_placement(g: Seq<Seq<int>>, r: int, c: int, v: int)
    requires
        shaped(g),
        on_grid(r, c),
    ensures
        valid_grid(with_value(g, r, c, v)) <==> valid_apart_from(g, r, c) && (v == 0 || clear_of(
            g,
            r,
            c,
            v,
        )),
{
    let h = with_value(g, r, c, v);
    lemma_with_value(g, r, c, v);
    if valid_grid(h) {
        assert forall|r1: int, c1: int, r2: int, c2: int|
            on_grid(r1, c1) && on_grid(r2, c2) && peers(r1, c1, r2, c2) && !(r1 == r && c1 == c)
                && !(r2 == r && c2 == c) && value_at(g, r1, c1) != 0 implies #[trigger] value_at(
            g,
            r1,
            c1,
        ) != #[trigger] value_at(g, r2, c2) by {
            assert(value_at(h, r1, c1) != value_at(h, r2, c2));
        }
        if v != 0 {
            assert forall|i: int, j: int| on_grid(i, j) && peers(r, c, i, j) implies #[trigger] value_at(
                g,
                i,
                j,
            ) != v by {
                assert(value_at(h, r, c) != value_at(h, i, j));
            }
        }
    }
    if valid_apart_from(g, r, c) && (v == 0 || clear_of(g, r, c, v)) {
        assert forall|r1: int, c1: int, r2: int, c2: int|
            on_grid(r1, c1) && on_grid(r2, c2) && peers(r1, c1, r2, c2) && value_at(h, r1, c1)
                != 0 implies #[trigger] value_at(h, r1, c1) != #[trigger] value_at(h, r2, c2) by {
            if r1 == r && c1 == c {
                assert(value_at(g, r2, c2) != v);
            } else if r2 == r && c2 == c {
                assert(peers(r, c, r1, c1));
                assert(value_at(g, r1, c1) != v);
            } else {
                assert(value_at(g, r1, c1) != value_at(g, r2, c2));
            }
        }
    }
}

/// Placing an allowed value into an empty cell of a valid grid leaves the
/// grid valid.
pub proof fn lemma_placement_keeps_valid(g: Seq<Seq<int>>, r: int, c: int, v: int)
    requires
        shaped(g),
        on_grid(r, c),
        valid_grid(g),
        value_at(g, r, c) == 0,
        allowed(g, r, c, v),
    ensures
        valid_grid(with_value(g, r, c, v)),
{
    lemma_valid_after_placement(g, r, c, v);
    lemma_allowed_by_cells(g, r, c, v);
    assert forall|i: int, j: int| on_grid(i, j) && peers(r, c, i, j) implies #[trigger] value_at(
        g,
        i,
        j,
    ) != v by {
        assert(related(r, c, i, j));
    }
}

/// A filling of `b` gives each empty cell of `b` a value that is allowed
/// there, and it is a filling of `b` with that value placed.
pub proof fn lemma_filling_descends(b: Seq<Seq<int>>, g: Seq<Seq<int>>, r: int, c: int)
    requires
        shaped(b),
        on_grid(r, c),
        value_at(b, r, c) == 0,
        fills(b, g),
    ensures
        1 <= value_at(g, r, c) <= 9,
        allowed(b, r, c, value_at(g, r, c)),
        fills(with_value(b, r, c, value_at(g, r, c)), g),
{
    let v = value_at(g, r, c);
    let h = with_value(b, r, c, v);
    lemma_with_value(b, r, c, v);
    lemma_allowed_by_cells(b, r, c, v);
    assert(fits(g, r, c));
    assert forall|i: int, j: int| on_grid(i, j) && related(r, c, i, j) implies #[trigger] value_at(
        b,
        i,
        j,
    ) != v by {
        if value_at(b, i, j) != 0 {
            assert(value_at(g, i, j) == value_at(b, i, j));
            assert(peers(r, c, i, j));
        }
    }
    assert forall|i: int, j: int| on_grid(i, j) implies if #[trigger] value_at(h, i, j) != 0 {
        value_at(g, i, j) == value_at(h, i, j)
    } else {
        fits(g, i, j)
    } by {
        if !(i == r && j == c) {
            assert(value_at(h, i, j) == value_at(b, i, j));
        }
    }
}

/// A filling of the grid that follows an allowed placement into an empty
/// cell is a filling of the grid before the placement.
pub proof fn lemma_filling_ascends(b: Seq<Seq<int>>, g: Seq<Seq<int>>, r: int, c: int, v: int)
    requires
        shaped(b),
        on_grid(r, c),
        value_at(b, r, c) == 0,
        1 <= v <= 9,
        allowed(b, r, c, v),
        fills(with_value(b, r, c, v), g),
    ensures
        fills(b, g),
        value_at(g, r, c) == v,
{
    let h = with_value(b, r, c, v);
    lemma_with_value(b, r, c, v);
    lemma_allowed_by_cells(b, r, c, v);
    assert(value_at(h, r, c) == v);
    assert(value_at(g, r, c) == v);
    assert forall|i: int, j: int| on_grid(i, j) && peers(r, c, i, j) implies #[trigger] value_at(
        g,
        i,
        j,
    ) != value_at(g, r, c) by {
        assert(value_at(h, i, j) == value_at(b, i, j));
        if value_at(b, i, j) != 0 {
            assert(related(r, c, i, j));
            assert(value_at(g, i, j) == value_at(b, i, j));
        } else {
            assert(fits(g, i, j));
            assert(peers(i, j, r, c));
        }
    }
    assert(fits(g, r, c));
    assert forall|i: int, j: int| on_grid(i, j) implies if #[trigger] value_at(b, i, j) != 0 {
        value_at(g, i, j) == value_at(b, i, j)
    } else {
        fits(g, i, j)
    } by {
        if !(i == r && j == c) {
            assert(value_at(h, i, j) == value_at(b, i, j));
        }
    }
}

/// A grid without empty cells is its own filling, and its only one.
pub proof fn lemma_full_grid_fills_itself(b: Seq<Seq<int>>)
    requires
        shaped(b),
        complete(b),
    ensures
        fills(b, b),
        forall|g: Seq<Seq<int>>| fills(b, g) ==> g == b,
{
    assert forall|g: Seq<Seq<int>>| fills(b, g) implies g == b by {
        assert forall|r: int| 0 <= r < 9 implies #[trigger] g[r] == b[r] by {
            assert forall|c: int| 0 <= c < 9 implies g[r][c] == b[r][c] by {
                assert(on_grid(r, c));
                assert(value_at(b, r, c) != 0);
                assert(value_at(g, r, c) == value_at(b, r, c));
            }
            assert(g[r].len() == 9 && b[r].len() == 9);
            assert(g[r] =~= b[r]);
        }
        assert(g =~= b);
    }
}

/// Every filling of a grid is a full grid that keeps the fixed values, and
/// it is valid exactly when the grid is. The filling of a valid grid with
/// values in range is a solved grid.
pub proof fn lemma_filling(b: Seq<Seq<int>>, g: Seq<Seq<int>>)
    requires
        shaped(b),
        fills(b, g),
    ensures
        extends(b, g),
        complete(g),
        valid_grid(g) <==> valid_grid(b),
        valid_grid(b) && in_range(b) ==> solved(g),
{
    assert forall|r: int, c: int| on_grid(r, c) implies #[trigger] value_at(g, r, c) != 0 by {
        if value_at(b, r, c) == 0 {
            assert(fits(g, r, c));
        }
    }
    if valid_grid(b) {
        assert forall|r1: int, c1: int, r2: int, c2: int|
            on_grid(r1, c1) && on_grid(r2, c2) && peers(r1, c1, r2, c2) && value_at(g, r1, c1)
                != 0 implies #[trigger] value_at(g, r1, c1) != #[trigger] value_at(g, r2, c2) by {
            if value_at(b, r1, c1) == 0 {
                assert(fits(g, r1, c1));
            } else if value_at(b, r2, c2) == 0 {
                assert(fits(g, r2, c2));
                assert(peers(r2, c2, r1, c1));
            } else {
                assert(value_at(b, r1, c1) != value_at(b, r2, c2));
            }
        }
    }
    if valid_grid(g) {
        assert forall|r1: int, c1: int, r2: int, c2: int|
            on_grid(r1, c1) && on_grid(r2, c2) && peers(r1, c1, r2, c2) && value_at(b, r1, c1)
                != 0 implies #[trigger] value_at(b, r1, c1) != #[trigger] value_at(b, r2, c2) by {
            assert(value_at(g, r1, c1) == value_at(b, r1, c1));
            assert(value_at(g, r1, c1) != value_at(g, r2, c2));
            if value_at(b, r2, c2) != 0 {
                assert(value_at(g, r2, c2) == value_at(b, r2, c2));
            }
        }
    }
    if in_range(b) {
        assert forall|r: int, c: int| on_grid(r, c) implies 0 <= #[trigger] value_at(g, r, c)
            <= 9 by {
            if value_at(b, r, c) == 0 {
                assert(fits(g, r, c));
            } else {
                assert(value_at(g, r, c) == value_at(b, r, c));
            }
        }
    }
}

/// A solved grid that keeps the fixed values of `b` is a filling of `b`.
pub proof fn lemma_solution_is_filling(b: Seq<Seq<int>>, g: Seq<Seq<int>>)
    requires
        solved(g),
        extends(b, g),
    ensures
        fills(b, g),
{
    assert forall|r: int, c: int| on_grid(r, c) implies if #[trigger] value_at(b, r, c) != 0 {
        value_at(g, r, c) == value_at(b, r, c)
    } else {
        fits(g, r, c)
    } by {
        if value_at(b, r, c) == 0 {
            assert(value_at(g, r, c) != 0);
            assert(0 <= value_at(g, r, c) <= 9);
            assert forall|i: int, j: int| on_grid(i, j) && peers(r, c, i, j) implies #[trigger] value_at(
                g,
                i,
                j,
            ) != value_at(g, r, c) by {
                assert(value_at(g, r, c) != value_at(g, i, j));
            }
        }
    }
}

/// A grid with a value out of range, or with a fixed value repeated in a
/// row, a column or a block, has no solution: every grid that keeps its
/// fixed values keeps the defect.
pub proof fn lemma_defect_has_no_solution(b: Seq<Seq<int>>)
    requires
        !in_range(b) || !valid_grid(b),
    ensures
        !has_solution(b),
{
    if has_solution(b) {
        let g = choose|g: Seq<Seq<int>>| solution_of(b, g);
        if !in_range(b) {
            let (r, c) = choose|r: int, c: int|
                on_grid(r, c) && !(0 <= #[trigger] value_at(b, r, c) <= 9);
            assert(value_at(g, r, c) == value_at(b, r, c));
        } else {
            let (r1, c1, r2, c2) = choose|r1: int, c1: int, r2: int, c2: int|
                on_grid(r1, c1) && on_grid(r2, c2) && peers(r1, c1, r2, c2) && value_at(b, r1, c1)
                    != 0 && #[trigger] value_at(b, r1, c1) == #[trigger] value_at(b, r2, c2);
            assert(value_at(g, r1, c1) == value_at(b, r1, c1));
            assert(value_at(g, r2, c2) == value_at(b, r2, c2));
        }
    }
}

/// The fillings of a well-formed grid are its solutions.
pub proof fn lemma_fillings_are_solutions(b: Seq<Seq<int>>)
    requires
        well_formed(b),
    ensures
        forall|g: Seq<Seq<int>>| #[trigger] fills(b, g) <==> solution_of(b, g),
        solvable(b) <==> has_solution(b),
{
    assert forall|g: Seq<Seq<int>>| #[trigger] fills(b, g) <==> solution_of(b, g) by {
        if fills(b, g) {
            lemma_filling(b, g);
        }
        if solution_of(b, g) {
            lemma_solution_is_filling(b, g);
        }
    }
    if solvable(b) {
        let g = choose|g: Seq<Seq<int>>| fills(b, g);
        assert(solution_of(b, g));
    }
    if has_solution(b) {
        let g = choose|g: Seq<Seq<int>>| solution_of(b, g);
        assert(fills(b, g));
    }
}

/// Clearing a cell and asking the legality rule for its value tells
/// whether a peer of the cell holds that value.
pub proof fn lemma_clear_by_probe(g: Seq<Seq<int>>, r: int, c: int, v: int)
    requires
        shaped(g),
        on_grid(r, c),
        v != 0,
    ensures
        allowed(with_value(g, r, c, 0), r, c, v) <==> clear_of(g, r, c, v),
{
    let h = with_value(g, r, c, 0);
    lemma_with_value(g, r, c, 0);
    lemma_allowed_by_cells(h, r, c, v);
    if allowed(h, r, c, v) {
        assert forall|i: int, j: int| on_grid(i, j) && peers(r, c, i, j) implies #[trigger] value_at(
            g,
            i,
            j,
        ) != v by {
            assert(related(r, c, i, j));
            assert(value_at(h, i, j) != v);
        }
    }
    if clear_of(g, r, c, v) {
        assert forall|i: int, j: int| on_grid(i, j) && related(r, c, i, j) implies #[trigger] value_at(
            h,
            i,
            j,
        ) != v by {
            if !(i == r && j == c) {
                assert(peers(r, c, i, j));
                assert(value_at(g, i, j) != v);
            }
        }
    }
}

/// Whether a search may start from `board`: every cell is empty or one of
/// `1..=9`, and no fixed value stands twice in a row, a column or a
/// block. Each fixed value is held against the legality rule, with its
/// own cell cleared.
pub fn is_well_formed(board: &Board) -> (ok: bool)
    ensures
        ok == well_formed(grid(*board)),
{
    let ghost g = grid(*board);
    let mut r: usize = 0;
    while r < 9
        invariant
            r <= 9,
            g == grid(*board),
            forall|i: int, j: int|
                0 <= i < r && 0 <= j < 9 ==> 0 <= #[trigger] value_at(g, i, j) <= 9 && (value_at(
                    g,
                    i,
                    j,
                ) != 0 ==> clear_of(g, i, j, value_at(g, i, j))),
        decreases 9 - r,
    {
        let mut c: usize = 0;
        while c < 9
            invariant
                r < 9,
                c <= 9,
                g == grid(*board),
                forall|i: int, j: int|
                    0 <= i < r && 0 <= j < 9 ==> 0 <= #[trigger] value_at(g, i, j) <= 9 && (
                    value_at(g, i, j) != 0 ==> clear_of(g, i, j, value_at(g, i, j))),
                forall|j: int|
                    0 <= j < c ==> 0 <= #[trigger] value_at(g, r as int, j) <= 9 && (value_at(
                        g,
                        r as int,
                        j,
                    ) != 0 ==> clear_of(g, r as int, j, value_at(g, r as int, j))),
            decreases 9 - c,
        {
            let value: usize = board[r][c];
            assert(value_at(g, r as int, c as int) == value);
            if value > 9 {
                assert(!in_range(g));
                return false;
            }
            if value != 0 {
                let mut probe: Board = *board;
                probe[r][c] = 0;
                proof {
                    let h = with_value(g, r as int, c as int, 0);
                    lemma_with_value(g, r as int, c as int, 0);
                    assert forall|i: int| 0 <= i < 9 implies #[trigger] grid(probe)[i] == h[i] by {
                        assert(grid(probe)[i] =~= h[i]);
                    }
                    assert(grid(probe) =~= h);
                    lemma_clear_by_probe(g, r as int, c as int, value as int);
                }
                if !is_allowed(&probe, &Cell { x: r, y: c }, value) {
                    proof {
                        let (i, j) = choose|i: int, j: int|
                            on_grid(i, j) && peers(r as int, c as int, i, j) && #[trigger] value_at(
                                g,
                                i,
                                j,
                            ) == value;
                        assert(on_grid(r as int, c as int));
                        assert(value_at(g, r as int, c as int) == value_at(g, i, j));
                        assert(!valid_grid(g));
                    }
                    return false;
                }
            }
            c += 1;
        }
        r += 1;
    }
    proof {
        assert forall|r1: int, c1: int, r2: int, c2: int|
            on_grid(r1, c1) && on_grid(r2, c2) && peers(r1, c1, r2, c2) && value_at(g, r1, c1)
                != 0 implies #[trigger] value_at(g, r1, c1) != #[trigger] value_at(g, r2, c2) by {
            assert(clear_of(g, r1, c1, value_at(g, r1, c1)));
        }
    }
    true
}

} // verus!
