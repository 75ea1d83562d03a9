//! The propagation engine: writes a value into the grid, retires the
//! entry of that cell, and strikes the value from every entry that shares
//! a row, a column or a block with it.

use vstd::prelude::*;
use crate::candidates::{fresh, has_entry, legal_values, tracks, views, Candidates, CellPossibilities};
use crate::grid::{
    affects_cell, allowed, grid, lemma_allowed_by_cells, on_grid, related, shaped, value_at, Board,
    Cell,
};
use crate::solution::{
    clear_of, lemma_placement_keeps_valid, lemma_valid_after_placement, lemma_with_value,
    valid_apart_from, valid_grid, with_value,
};

verus! {

/// The entries without those of the cell `(r, c)`, order kept.
pub open spec fn without_cell(entries: Seq<Candidates>, r: int, c: int) -> Seq<Candidates>
    decreases entries.len(),
{
    if entries.len() == 0 {
        Seq::empty()
    } else {
        let rest = without_cell(entries.drop_last(), r, c);
        let e = entries.last();
        if e.row == r && e.col == c {
            rest
        } else {
            rest.push(e)
        }
    }
}

/// The entry after `v` was placed at `(r, c)`: it loses `v` if its cell is
/// related to `(r, c)`, and is unchanged otherwise.
pub open spec fn pruned(e: Candidates, r: int, c: int, v: int) -> Candidates {
    if related(r, c, e.row, e.col) {
        Candidates { row: e.row, col: e.col, values: e.values.remove(v) }
    } else {
        e
    }
}

/// What is left of the entries once `v` stands at `(r, c)`: the entry of
/// `(r, c)` is gone, and each other entry is pruned.
pub open spec fn eliminate(entries: Seq<Candidates>, r: int, c: int, v: int) -> Seq<Candidates> {
    let kept = without_cell(entries, r, c);
    Seq::new(kept.len(), |i: int| pruned(kept[i], r, c, v))
}

/// No two entries name the same cell.
pub open spec fn distinct_cells(entries: Seq<Candidates>) -> bool {
    forall|i: int, j: int|
        0 <= i < j < entries.len() ==> !((#[trigger] entries[i]).row == (#[trigger] entries[j]).row
            && entries[i].col == entries[j].col)
}

/// What `without_cell` keeps and what it drops.
pub proof fn lemma_without_cell(entries: Seq<Candidates>, r: int, c: int)
    ensures
        without_cell(entries, r, c).len() <= entries.len(),
        has_entry(entries, r, c) ==> without_cell(entries, r, c).len() < entries.len(),
        forall|k: int|
            0 <= k < without_cell(entries, r, c).len() ==> {
                let e = #[trigger] without_cell(entries, r, c)[k];
                !(e.row == r && e.col == c) && entries.contains(e)
            },
        forall|k: int|
            0 <= k < entries.len() && !((#[trigger] entries[k]).row == r && entries[k].col == c)
                ==> without_cell(entries, r, c).contains(entries[k]),
        distinct_cells(entries) ==> distinct_cells(without_cell(entries, r, c)),
    decreases entries.len(),
{
    let kept = without_cell(entries, r, c);
    if entries.len() > 0 {
        let front = entries.drop_last();
        let e = entries.last();
        let rest = without_cell(front, r, c);
        lemma_without_cell(front, r, c);
        assert forall|k: int| 0 <= k < kept.len() implies {
            let x = #[trigger] kept[k];
            !(x.row == r && x.col == c) && entries.contains(x)
        } by {
            if k < rest.len() {
                let x = rest[k];
                assert(front.contains(x));
                let t = choose|t: int| 0 <= t < front.len() && front[t] == x;
                assert(entries[t] == x);
            } else {
                assert(entries[entries.len() - 1] == e);
            }
        }
        assert forall|k: int|
            0 <= k < entries.len() && !((#[trigger] entries[k]).row == r && entries[k].col
                == c) implies kept.contains(entries[k]) by {
            if k < front.len() {
                assert(front[k] == entries[k]);
                assert(rest.contains(entries[k]));
                let t = choose|t: int| 0 <= t < rest.len() && rest[t] == entries[k];
                assert(kept[t] == entries[k]);
            } else {
                assert(kept[kept.len() - 1] == e);
            }
        }
        if has_entry(entries, r, c) {
            let t = choose|t: int|
                0 <= t < entries.len() && (#[trigger] entries[t]).row == r && entries[t].col == c;
            if t < front.len() {
                assert(front[t] == entries[t]);
                assert(has_entry(front, r, c));
            }
        }
        if distinct_cells(entries) {
            assert forall|i: int, j: int| 0 <= i < j < front.len() implies !((
            #[trigger] front[i]).row == (#[trigger] front[j]).row && front[i].col
                == front[j].col) by {
                assert(front[i] == entries[i] && front[j] == entries[j]);
            }
            assert forall|i: int, j: int| 0 <= i < j < kept.len() implies !((
            #[trigger] kept[i]).row == (#[trigger] kept[j]).row && kept[i].col == kept[j].col) by {
                if j < rest.len() {
                    assert(kept[i] == rest[i] && kept[j] == rest[j]);
                } else {
                    let x = rest[i];
                    assert(front.contains(x));
                    let t = choose|t: int| 0 <= t < front.len() && front[t] == x;
                    assert(entries[t] == x);
                    assert(entries[entries.len() - 1] == e);
                }
            }
        }
    }
}

/// How one placement into an empty cell changes what is allowed at
/// another cell: the placed value is lost where the two cells are
/// related, and nothing else changes.
pub proof fn lemma_allowed_after_placement(
    g: Seq<Seq<int>>,
    r: int,
    c: int,
    v: int,
    r2: int,
    c2: int,
    w: int,
)
    requires
        shaped(g),
        on_grid(r, c),
        on_grid(r2, c2),
        value_at(g, r, c) == 0,
    ensures
        allowed(with_value(g, r, c, v), r2, c2, w) <==> allowed(g, r2, c2, w) && !(related(
            r,
            c,
            r2,
            c2,
        ) && v == w),
{
    let h = with_value(g, r, c, v);
    lemma_with_value(g, r, c, v);
    lemma_allowed_by_cells(g, r2, c2, w);
    lemma_allowed_by_cells(h, r2, c2, w);
    if allowed(h, r2, c2, w) {
        assert forall|i: int, j: int| on_grid(i, j) && related(r2, c2, i, j) implies #[trigger] value_at(
            g,
            i,
            j,
        ) != w by {
            assert(value_at(h, i, j) != w);
        }
        if related(r, c, r2, c2) {
            assert(related(r2, c2, r, c));
            assert(value_at(h, r, c) != w);
        }
    }
    if allowed(g, r2, c2, w) && !(related(r, c, r2, c2) && v == w) {
        assert forall|i: int, j: int| on_grid(i, j) && related(r2, c2, i, j) implies #[trigger] value_at(
            h,
            i,
            j,
        ) != w by {
            assert(value_at(g, i, j) != w);
            if i == r && j == c {
                assert(related(r, c, r2, c2));
            }
        }
    }
}

/// Propagation leaves nothing stale: if the entries track the grid, and a
/// value is placed into an empty cell, the eliminated entries track the
/// new grid.
pub proof fn lemma_eliminate_keeps_tracking(
    g: Seq<Seq<int>>,
    entries: Seq<Candidates>,
    r: int,
    c: int,
    v: int,
)
    requires
        shaped(g),
        on_grid(r, c),
        tracks(g, entries),
        value_at(g, r, c) == 0,
        v != 0,
    ensures
        tracks(with_value(g, r, c, v), eliminate(entries, r, c, v)),
        eliminate(entries, r, c, v).len() < entries.len(),
{
    let h = with_value(g, r, c, v);
    let kept = without_cell(entries, r, c);
    let out = eliminate(entries, r, c, v);
    lemma_with_value(g, r, c, v);
    lemma_without_cell(entries, r, c);
    assert(has_entry(entries, r, c));
    assert(distinct_cells(entries));
    assert forall|i: int| 0 <= i < out.len() implies fresh(h, #[trigger] out[i]) by {
        let e = kept[i];
        assert(entries.contains(e));
        let t = choose|t: int| 0 <= t < entries.len() && entries[t] == e;
        assert(fresh(g, entries[t]));
        assert(value_at(h, e.row, e.col) == value_at(g, e.row, e.col));
        assert forall|w: int|
            out[i].values.contains(w) <==> legal_values(h, e.row, e.col).contains(w) by {
            lemma_allowed_after_placement(g, r, c, v, e.row, e.col, w);
        }
        assert(out[i].values =~= legal_values(h, e.row, e.col));
    }
    assert forall|i: int, j: int| 0 <= i < j < out.len() implies !((#[trigger] out[i]).row == (
    #[trigger] out[j]).row && out[i].col == out[j].col) by {
        assert(!(kept[i].row == kept[j].row && kept[i].col == kept[j].col));
    }
    assert forall|i: int, j: int| on_grid(i, j) && #[trigger] value_at(h, i, j) == 0 implies has_entry(
        out,
        i,
        j,
    ) by {
        assert(!(i == r && j == c));
        assert(value_at(g, i, j) == 0);
        assert(has_entry(entries, i, j));
        let t = choose|t: int|
            0 <= t < entries.len() && (#[trigger] entries[t]).row == i && entries[t].col == j;
        assert(kept.contains(entries[t]));
        let k = choose|k: int| 0 <= k < kept.len() && kept[k] == entries[t];
        assert(out[k].row == i && out[k].col == j);
    }
}

/// Applies a placement: writes `value` at `placed_cell`, retires the entry
/// of that cell, and strikes `value` from every remaining entry whose cell
/// shares a row, a column or a block with it.
pub fn reduce(
    board: &mut Board,
    possibilities: &mut Vec<CellPossibilities>,
    placed_cell: &Cell,
    value: usize,
)
    requires
        placed_cell.on_grid(),
    ensures
        grid(*final(board)) == with_value(
            grid(*old(board)),
            placed_cell.x as int,
            placed_cell.y as int,
            value as int,
        ),
        views(final(possibilities)@) == eliminate(
            views(old(possibilities)@),
            placed_cell.x as int,
            placed_cell.y as int,
            value as int,
        ),
        tracks(grid(*old(board)), views(old(possibilities)@)) && value_at(
            grid(*old(board)),
            placed_cell.x as int,
            placed_cell.y as int,
        ) == 0 && value != 0 ==> tracks(grid(*final(board)), views(final(possibilities)@))
            && final(possibilities).len() < old(possibilities).len(),
        valid_grid(grid(*final(board))) <==> valid_apart_from(
            grid(*old(board)),
            placed_cell.x as int,
            placed_cell.y as int,
        ) && (value == 0 || clear_of(
            grid(*old(board)),
            placed_cell.x as int,
            placed_cell.y as int,
            value as int,
        )),
        valid_grid(grid(*old(board))) && value_at(
            grid(*old(board)),
            placed_cell.x as int,
            placed_cell.y as int,
        ) == 0 && allowed(
            grid(*old(board)),
            placed_cell.x as int,
            placed_cell.y as int,
            value as int,
        ) ==> valid_grid(grid(*final(board))),
{
    let ghost r = placed_cell.x as int;
    let ghost c = placed_cell.y as int;
    let ghost v = value as int;
    let ghost g = grid(*board);
    let ghost before = views(possibilities@);
    let ghost orig = possibilities@;

    board[placed_cell.x][placed_cell.y] = value;
    proof {
        lemma_with_value(g, r, c, v);
        let h = with_value(g, r, c, v);
        assert forall|i: int| 0 <= i < 9 implies #[trigger] grid(*board)[i] == h[i] by {
            assert(grid(*board)[i] =~= h[i]);
        }
        assert(grid(*board) =~= h);
    }

    let ghost mut j: int = 0;
    let mut i: usize = 0;
    while i < possibilities.len()
        invariant
            r == placed_cell.x as int,
            c == placed_cell.y as int,
            0 <= j <= orig.len(),
            i <= possibilities.len(),
            possibilities.len() - i == orig.len() - j,
            before == views(orig),
            views(possibilities@).subrange(0, i as int) == without_cell(before.subrange(0, j), r, c),
            possibilities@.subrange(i as int, possibilities.len() as int) == orig.subrange(
                j,
                orig.len() as int,
            ),
        decreases possibilities.len() - i,
    {
        let ghost now = possibilities@;
        assert(now[i as int] == now.subrange(i as int, now.len() as int)[0]);
        assert(now[i as int] == orig[j]);
        assert(before.subrange(0, j + 1).drop_last() =~= before.subrange(0, j));
        assert(before.subrange(0, j + 1).last() == orig[j]@);
        let cell = &possibilities[i];
        if cell.x == placed_cell.x && cell.y == placed_cell.y {
            possibilities.remove(i);
            proof {
                assert(views(possibilities@).subrange(0, i as int) =~= views(now).subrange(
                    0,
                    i as int,
                ));
                assert(possibilities@.subrange(i as int, possibilities.len() as int)
                    =~= now.subrange(i as int, now.len() as int).subrange(1, now.len() - i));
                assert(orig.subrange(j + 1, orig.len() as int) =~= orig.subrange(
                    j,
                    orig.len() as int,
                ).subrange(1, orig.len() - j));
                j = j + 1;
            }
        } else {
            proof {
                assert(views(now).subrange(0, i + 1) =~= views(now).subrange(0, i as int).push(
                    now[i as int]@,
                ));
                assert(now.subrange(i + 1, now.len() as int) =~= now.subrange(
                    i as int,
                    now.len() as int,
                ).subrange(1, now.len() - i));
                assert(orig.subrange(j + 1, orig.len() as int) =~= orig.subrange(
                    j,
                    orig.len() as int,
                ).subrange(1, orig.len() - j));
                j = j + 1;
            }
            i += 1;
        }
    }
    let ghost kept = views(possibilities@);
    proof {
        assert(before.subrange(0, orig.len() as int) =~= before);
        assert(kept.subrange(0, kept.len() as int) =~= kept);
    }

    let mut k: usize = 0;
    while k < possibilities.len()
        invariant
            r == placed_cell.x as int,
            c == placed_cell.y as int,
            v == value as int,
            k <= possibilities.len(),
            possibilities.len() == kept.len(),
            forall|t: int| 0 <= t < k ==> (#[trigger] possibilities@[t])@ == pruned(kept[t], r, c, v),
            forall|t: int| k <= t < kept.len() ==> (#[trigger] possibilities@[t])@ == kept[t],
        decreases possibilities.len() - k,
    {
        let mut entry = possibilities[k];
        let target_cell = Cell { x: entry.x, y: entry.y };
        if affects_cell(placed_cell, &target_cell) {
            entry.possibles_values.remove(value);
            possibilities.set(k, entry);
        }
        k += 1;
    }
    proof {
        assert(views(possibilities@) =~= eliminate(before, r, c, v));
        if tracks(g, before) && value_at(g, r, c) == 0 && value != 0 {
            lemma_eliminate_keeps_tracking(g, before, r, c, v);
        }
        lemma_valid_after_placement(g, r, c, v);
        if valid_grid(g) && value_at(g, r, c) == 0 && allowed(g, r, c, v) {
            lemma_placement_keeps_valid(g, r, c, v);
        }
    }
}

} // verus!
