//! The collapser: fixing one cell of the tie group to a single candidate.

use vstd::prelude::*;
use crate::cell::{Cell, CellView, cell_valid, grid_valid};
use crate::random::{choose_one, drawn_from};

verus! {

/// A cell after an attempt to collapse it with the draw `pick`: it is marked
/// collapsed; its domain becomes the single drawn candidate, unless the
/// domain was empty or nothing was drawn, in which case the domain stays.
pub open spec fn collapsed_cell(cell: CellView, pick: Option<usize>) -> CellView {
    CellView {
        collapsed: true,
        sockets: match pick {
            Some(p) if cell.sockets.len() > 0 => seq![p],
            _ => cell.sockets,
        },
    }
}

/// A collapse that succeeds keeps a valid grid valid.
pub proof fn lemma_collapse_keeps_valid(grid: Seq<CellView>, target: int, pick: Option<usize>)
    requires
        0 <= target < grid.len(),
        grid_valid(grid),
        grid[target].sockets.len() > 0,
        pick is Some,
    ensures
        grid_valid(grid.update(target, collapsed_cell(grid[target], pick))),
{
    let after = grid.update(target, collapsed_cell(grid[target], pick));
    assert forall|i: int| 0 <= i < after.len() implies cell_valid(#[trigger] after[i]) by {
        if i != target {
            assert(cell_valid(grid[i]));
        }
    }
}

/// Collapses the cell at `target` with a draw that was already made.
///
/// The cell is marked collapsed in any case. The attempt fails, and says so
/// by returning `false`, when the cell has no candidate left or `pick` is
/// `None`; the domain is then left as it was. Otherwise the domain becomes
/// the single candidate `pick`.
pub fn collapse_with(grid: &mut Vec<Cell>, target: usize, pick: Option<usize>) -> (ok: bool)
    requires
        target < old(grid)@.len(),
    ensures
        final(grid).deep_view() == old(grid).deep_view().update(
            target as int,
            collapsed_cell(old(grid).deep_view()[target as int], pick),
        ),
        ok == (old(grid).deep_view()[target as int].sockets.len() > 0 && pick is Some),
        final(grid)@.len() == old(grid)@.len(),
        ok && grid_valid(old(grid).deep_view()) ==> grid_valid(final(grid).deep_view()),
{
    let ghost before = grid.deep_view();
    let empty = grid[target].sockets.is_empty();
    let renewed = match pick {
        Some(p) if !empty => {
            let mut single: Vec<usize> = Vec::new();
            single.push(p);
            Cell { collapsed: true, sockets: single }
        },
        _ => Cell { collapsed: true, sockets: grid[target].sockets.clone() },
    };
    grid.set(target, renewed);
    proof {
        if !empty && pick is Some && grid_valid(before) {
            lemma_collapse_keeps_valid(before, target as int, pick);
        }
    }
    !empty && pick.is_some()
}

/// What one run of the collapser may make of `before`, when it draws the
/// cell at `target` and then the candidate `pick`: `target` is a member of
/// the tie group, `pick` is drawn from that cell's domain, only that cell
/// changes, and the run succeeds unless that cell had no candidate left.
pub open spec fn collapse_outcome(
    before: Seq<CellView>,
    after: Seq<CellView>,
    ok: bool,
    group: Seq<usize>,
    target: usize,
    pick: Option<usize>,
) -> bool {
    &&& group.contains(target)
    &&& drawn_from(before[target as int].sockets, pick)
    &&& after == before.update(target as int, collapsed_cell(before[target as int], pick))
    &&& ok == (before[target as int].sockets.len() > 0)
}

/// The collapser: draws one cell of the tie group `grid_target` at random,
/// marks it collapsed, and draws one of its candidates at random to be its
/// whole domain.
///
/// Returns `false` when the drawn cell has no candidate left: the grid then
/// holds a contradiction and is of no further use. Also returns `false`, and
/// changes nothing, when the tie group is empty.
pub fn random_selection_of_sockets(grid: &mut Vec<Cell>, grid_target: &Vec<usize>) -> (ok: bool)
    requires
        forall|k: int| 0 <= k < grid_target@.len() ==> (#[trigger] grid_target@[k]) < old(grid)@.len(),
    ensures
        grid_target@.len() == 0 ==> !ok && final(grid).deep_view() == old(grid).deep_view(),
        grid_target@.len() > 0 ==> exists|target: usize, pick: Option<usize>| #[trigger]
            collapse_outcome(
                old(grid).deep_view(),
                final(grid).deep_view(),
                ok,
                grid_target@,
                target,
                pick,
            ),
        final(grid)@.len() == old(grid)@.len(),
        ok && grid_valid(old(grid).deep_view()) ==> grid_valid(final(grid).deep_view()),
{
    let ghost before = grid.deep_view();
    let mut rng = rand::thread_rng();
    match choose_one(grid_target, &mut rng) {
        None => false,
        Some(target) => {
            let pick = choose_one(&grid[target].sockets, &mut rng);
            let ok = collapse_with(grid, target, pick);
            assert(collapse_outcome(before, grid.deep_view(), ok, grid_target@, target, pick));
            ok
        },
    }
}

} // verus!
