//! The generation loop: select, collapse, propagate, and start over on a
//! contradiction.

use vstd::prelude::*;
use crate::cell::{
    Cell, CellView, ascending, cell_valid, fresh_grid, grid_ascending, grid_valid, grid_within,
    universe,
};
use crate::collapse::{collapse_outcome, random_selection_of_sockets};
use crate::propagate::{lemma_propagated_valid, propagated, wave_collapse};
use crate::select::{complete, is_least, pick_cell_with_least_entropy};
use crate::tile::{Tile, TileView};

verus! {

/// Where generation stands after one turn of the loop.
#[derive(Clone, Copy, Debug, PartialEq, Eq, Structural)]
pub enum State {
    /// A cell was collapsed and the grid was swept; there may be more to do.
    Running,
    /// The cell that was drawn had no candidate left. The grid was thrown
    /// away and a fresh one of the same size stands in its place.
    Contradiction,
    /// Every cell is collapsed. Nothing was changed.
    Complete,
}

/// Whether some uncollapsed cell of the grid has no candidate left.
pub open spec fn contradictory(grid: Seq<CellView>) -> bool {
    exists|i: int| 0 <= i < grid.len() && !(#[trigger] grid[i]).collapsed && grid[i].sockets.len() == 0
}

/// What a turn that stays running may make of `before`: the cell at `target`
/// is of least entropy, `pick` is one of its candidates, and `after` is the
/// sweep over the grid in which that cell is collapsed to `pick`.
pub open spec fn running_outcome(
    before: Seq<CellView>,
    after: Seq<CellView>,
    tiles: Seq<TileView>,
    dim: int,
    target: usize,
    pick: usize,
) -> bool {
    &&& is_least(before)(target)
    &&& before[target as int].sockets.contains(pick)
    &&& after == propagated(
        before.update(target as int, CellView { collapsed: true, sockets: seq![pick] }),
        tiles,
        dim,
    )
}

/// What one turn of the loop may make of `before`, and what it reports.
///
/// A complete grid stays as it is. A grid in which some uncollapsed cell has
/// no candidate left is replaced by a fresh one of the same size. Any other
/// grid has one cell of least entropy collapsed and is swept once.
pub open spec fn turn(
    before: Seq<CellView>,
    after: Seq<CellView>,
    tiles: Seq<TileView>,
    dim: int,
    state: State,
) -> bool {
    match state {
        State::Complete => complete(before) && after == before,
        State::Contradiction => contradictory(before) && after == fresh_grid(
            before.len(),
            tiles.len(),
        ),
        State::Running => !complete(before) && !contradictory(before) && exists|
            target: usize,
            pick: usize,
        | #[trigger] running_outcome(before, after, tiles, dim, target, pick),
    }
}

/// A fresh grid is valid, lies within the catalog it was made for, and has
/// every domain in ascending order.
pub proof fn lemma_fresh_grid_valid(len: nat, n: nat)
    ensures
        grid_valid(fresh_grid(len, n)),
        grid_within(fresh_grid(len, n), n),
        n <= usize::MAX ==> grid_ascending(fresh_grid(len, n)),
{
}

/// A turn keeps the size of the grid, keeps a valid grid valid, keeps a
/// grid within the catalog, and keeps the domains in ascending order.
pub proof fn lemma_turn_keeps_valid(
    before: Seq<CellView>,
    after: Seq<CellView>,
    tiles: Seq<TileView>,
    dim: int,
    state: State,
)
    requires
        0 <= dim,
        before.len() == dim * dim,
        turn(before, after, tiles, dim, state),
    ensures
        after.len() == before.len(),
        grid_valid(before) ==> grid_valid(after),
        grid_within(before, tiles.len()) ==> grid_within(after, tiles.len()),
        grid_ascending(before) && tiles.len() <= usize::MAX ==> grid_ascending(after),
{
    match state {
        State::Complete => {},
        State::Contradiction => {
            lemma_fresh_grid_valid(before.len(), tiles.len());
        },
        State::Running => {
            let (target, pick) = choose|target: usize, pick: usize| #[trigger]
                running_outcome(before, after, tiles, dim, target, pick);
            let middle = before.update(
                target as int,
                CellView { collapsed: true, sockets: seq![pick] },
            );
            lemma_propagated_valid(middle, tiles, dim);
            if grid_ascending(before) {
                assert forall|i: int| 0 <= i < middle.len() implies ascending(
                    (#[trigger] middle[i]).sockets,
                ) by {
                    if i != target {
                        assert(ascending(before[i].sockets));
                    }
                }
            }
            if grid_valid(before) {
                assert forall|i: int| 0 <= i < middle.len() implies cell_valid(#[trigger] middle[i]) by {
                    if i != target {
                        assert(cell_valid(before[i]));
                    }
                }
            }
            if grid_within(before, tiles.len()) {
                assert forall|i: int, k: int|
                    0 <= i < middle.len() && 0 <= k < middle[i].sockets.len() implies (
                #[trigger] middle[i].sockets[k]) < tiles.len() by {
                    if i == target {
                        let at = choose|at: int|
                            0 <= at < before[i].sockets.len() && before[i].sockets[at] == pick;
                        assert(before[i].sockets[at] < tiles.len());
                    } else {
                        assert(middle[i].sockets[k] == before[i].sockets[k]);
                    }
                }
            }
        },
    }
}

/// Whether grid `i + 1` of `run` comes from grid `i` by a turn of the loop.
pub open spec fn follows(run: Seq<Seq<CellView>>, tiles: Seq<TileView>, dim: int, i: int) -> bool {
    exists|state: State| #[trigger] turn(run[i], run[i + 1], tiles, dim, state)
}

/// Whether `run` is a course of generation: it starts from a fresh grid, and
/// each of its grids comes from the one before by a turn of the loop.
pub open spec fn is_run(run: Seq<Seq<CellView>>, tiles: Seq<TileView>, dim: int) -> bool {
    &&& run.len() > 0
    &&& run[0] == fresh_grid((dim * dim) as nat, tiles.len())
    &&& forall|i: int| 0 <= i < run.len() - 1 ==> #[trigger] follows(run, tiles, dim, i)
}

/// Every grid that generation can reach is valid: in each of them, a
/// collapsed cell has exactly one candidate. Each also has the size of the
/// first, names only variants of the catalog, and lists the candidates of
/// every cell in ascending order, none of them twice.
pub proof fn lemma_reachable_valid(run: Seq<Seq<CellView>>, tiles: Seq<TileView>, dim: int, at: int)
    requires
        0 <= dim,
        tiles.len() <= usize::MAX,
        is_run(run, tiles, dim),
        0 <= at < run.len(),
    ensures
        run[at].len() == dim * dim,
        grid_valid(run[at]),
        grid_within(run[at], tiles.len()),
        grid_ascending(run[at]),
    decreases at,
{
    assert(0 <= dim * dim) by (nonlinear_arith)
        requires
            0 <= dim,
    ;
    if at == 0 {
        lemma_fresh_grid_valid((dim * dim) as nat, tiles.len());
    } else {
        lemma_reachable_valid(run, tiles, dim, at - 1);
        assert(follows(run, tiles, dim, at - 1));
        let state = choose|state: State| #[trigger] turn(run[at - 1], run[at - 1 + 1], tiles, dim, state);
        lemma_turn_keeps_valid(run[at - 1], run[at], tiles, dim, state);
    }
}

/// A turn does not depend on chance in what it reports: complete, when the
/// grid is; a contradiction, when an uncollapsed cell has no candidate left;
/// running in every other case. And on a complete grid every turn, however
/// often repeated, leaves the grid as it is.
pub proof fn lemma_turn_reports(
    before: Seq<CellView>,
    after: Seq<CellView>,
    tiles: Seq<TileView>,
    dim: int,
    state: State,
)
    requires
        turn(before, after, tiles, dim, state),
    ensures
        state == State::Complete <==> complete(before),
        state == State::Contradiction <==> contradictory(before),
        complete(before) ==> after == before,
        contradictory(before) ==> after == fresh_grid(before.len(), tiles.len()),
{
}

/// The grid that generation starts from: `dim * dim` uncollapsed cells, each
/// with the whole universe of `variants` variants as its domain.
pub fn create_grid(dim: usize, variants: usize) -> (grid: Vec<Cell>)
    requires
        dim * dim <= usize::MAX,
    ensures
        grid.deep_view() == fresh_grid((dim * dim) as nat, variants as nat),
        grid@.len() == dim * dim,
        grid_valid(grid.deep_view()),
        grid_within(grid.deep_view(), variants as nat),
        grid_ascending(grid.deep_view()),
{
    assert(0 <= dim * dim) by (nonlinear_arith);
    let cells = dim * dim;
    let mut grid: Vec<Cell> = Vec::new();
    let mut i: usize = 0;
    while i < cells
        invariant
            i <= cells,
            grid@.len() == i,
            forall|k: int|
                0 <= k < i ==> (#[trigger] grid@[k])@ == (CellView {
                    collapsed: false,
                    sockets: universe(variants as nat),
                }),
        decreases cells - i,
    {
        grid.push(Cell::from_value(variants));
        i = i + 1;
    }
    proof {
        lemma_fresh_grid_valid(cells as nat, variants as nat);
    }
    grid
}

/// One turn of the generation loop.
///
/// On a complete grid nothing happens. Otherwise a cell of least entropy is
/// drawn and collapsed. If that cell had no candidate left, the grid is
/// replaced by a fresh one of the same size; else the grid is swept once.
///
/// Which of the three happens does not depend on chance: all cells of the
/// tie group have a domain of the same size, so the draw fails exactly when
/// that size is zero.
pub fn main_loop(grid: &mut Vec<Cell>, tiles: &[Tile], dim: usize) -> (state: State)
    requires
        old(grid)@.len() == dim * dim,
        grid_within(old(grid).deep_view(), tiles@.len() as nat),
    ensures
        turn(old(grid).deep_view(), final(grid).deep_view(), tiles.deep_view(), dim as int, state),
        state == State::Complete <==> complete(old(grid).deep_view()),
        state == State::Contradiction <==> contradictory(old(grid).deep_view()),
        final(grid)@.len() == old(grid)@.len(),
        grid_within(final(grid).deep_view(), tiles@.len() as nat),
        grid_valid(old(grid).deep_view()) ==> grid_valid(final(grid).deep_view()),
        grid_ascending(old(grid).deep_view()) ==> grid_ascending(final(grid).deep_view()),
{
    let ghost before = grid.deep_view();
    let low_entropy_grid = pick_cell_with_least_entropy(grid);
    if low_entropy_grid.is_empty() {
        assert(!contradictory(before));
        return State::Complete;
    }
    let ok = random_selection_of_sockets(grid, &low_entropy_grid);
    let ghost (target, drawn) = choose|target: usize, drawn: Option<usize>| #[trigger]
        collapse_outcome(before, grid.deep_view(), ok, low_entropy_grid@, target, drawn);
    assert(is_least(before)(target));
    if !ok {
        assert(contradictory(before));
        assert(dim * dim == grid.len());
        *grid = create_grid(dim, tiles.len());
        return State::Contradiction;
    }
    assert(!contradictory(before)) by {
        if contradictory(before) {
            let i = choose|i: int|
                0 <= i < before.len() && !(#[trigger] before[i]).collapsed && before[i].sockets.len()
                    == 0;
            assert(before[target as int].sockets.len() <= before[i].sockets.len());
        }
    }
    let ghost pick = drawn->Some_0;
    let ghost middle = grid.deep_view();
    assert(middle == before.update(
        target as int,
        CellView { collapsed: true, sockets: seq![pick] },
    ));
    assert(grid_within(middle, tiles@.len() as nat)) by {
        assert forall|i: int, k: int| 0 <= i < middle.len() && 0 <= k < middle[i].sockets.len() implies (
        #[trigger] middle[i].sockets[k]) < tiles@.len() by {
            if i == target {
                let at = choose|at: int|
                    0 <= at < before[i].sockets.len() && before[i].sockets[at] == pick;
                assert(before[i].sockets[at] < tiles@.len());
            } else {
                assert(middle[i].sockets[k] == before[i].sockets[k]);
            }
        }
    }
    wave_collapse(grid, tiles, dim);
    proof {
        assert(running_outcome(before, grid.deep_view(), tiles.deep_view(), dim as int, target, pick));
        lemma_turn_keeps_valid(before, grid.deep_view(), tiles.deep_view(), dim as int, State::Running);
    }
    State::Running
}

} // verus!
