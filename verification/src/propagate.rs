//! The propagator: one synchronous sweep that recomputes the domain of every
//! uncollapsed cell from the domains of its neighbours.

use vstd::prelude::*;
use crate::cell::{Cell, CellView, ascending, cell_valid, grid_ascending, grid_valid, grid_within, universe};
use crate::direction::Direction;
use crate::filters::{
    lemma_filter_all, lemma_filter_members, lemma_filter_same, lemma_filter_twice,
    lemma_universe_filter_ascending,
};
use crate::select::complete;
use crate::tile::{Tile, TileView};

verus! {

/// Whether candidate `k` is accepted on side `d` by at least one of the
/// candidates in `domain`.
pub open spec fn supported(tiles: Seq<TileView>, domain: Seq<usize>, d: Direction, k: usize) -> bool {
    exists|c: int| 0 <= c < domain.len() && tiles[(#[trigger] domain[c]) as int].valid(d).contains(k)
}

/// The candidates that are accepted on side `d` by at least one of the
/// candidates in `domain`.
pub open spec fn accepted_by(tiles: Seq<TileView>, domain: Seq<usize>, d: Direction) -> spec_fn(
    usize,
) -> bool {
    |k: usize| supported(tiles, domain, d, k)
}

/// The candidates that occur in `list`.
pub open spec fn member_of(list: Seq<usize>) -> spec_fn(usize) -> bool {
    |k: usize| list.contains(k)
}

/// Everything the candidates in `domain` accept on side `d`: their lists for
/// that side, one after the other, in the order of `domain`.
pub open spec fn joined_lists(domain: Seq<usize>, tiles: Seq<TileView>, d: Direction) -> Seq<usize>
    decreases domain.len(),
{
    if domain.len() == 0 {
        Seq::empty()
    } else {
        joined_lists(domain.drop_last(), tiles, d) + tiles[domain.last() as int].valid(d)
    }
}

/// A candidate occurs in the joined lists exactly when it is supported.
pub proof fn lemma_joined_lists_contains(
    domain: Seq<usize>,
    tiles: Seq<TileView>,
    d: Direction,
    k: usize,
)
    ensures
        joined_lists(domain, tiles, d).contains(k) <==> supported(tiles, domain, d, k),
    decreases domain.len(),
{
    if domain.len() == 0 {
    } else {
        let rest = domain.drop_last();
        let tail = tiles[domain.last() as int].valid(d);
        lemma_joined_lists_contains(rest, tiles, d, k);
        let joined = joined_lists(rest, tiles, d) + tail;
        if joined.contains(k) {
            let at = choose|at: int| 0 <= at < joined.len() && joined[at] == k;
            if at < joined_lists(rest, tiles, d).len() {
                assert(joined_lists(rest, tiles, d)[at] == k);
                let c = choose|c: int| 0 <= c < rest.len() && tiles[(#[trigger] rest[c]) as int].valid(d).contains(k);
                assert(domain[c] == rest[c]);
            } else {
                assert(tail[at - joined_lists(rest, tiles, d).len()] == k);
                assert(domain[domain.len() - 1] == domain.last());
            }
        }
        if supported(tiles, domain, d, k) {
            let c = choose|c: int| 0 <= c < domain.len() && tiles[(#[trigger] domain[c]) as int].valid(d).contains(k);
            if c < rest.len() {
                assert(rest[c] == domain[c]);
                assert(supported(tiles, rest, d, k));
                let at = choose|at: int| 0 <= at < joined_lists(rest, tiles, d).len() && joined_lists(rest, tiles, d)[at] == k;
                assert(joined[at] == k);
            } else {
                let at = choose|at: int| 0 <= at < tail.len() && tail[at] == k;
                assert(joined[joined_lists(rest, tiles, d).len() + at] == k);
            }
        }
    }
}

/// Whether `x` occurs in `list`.
fn occurs(list: &[usize], x: usize) -> (found: bool)
    ensures
        found == list@.contains(x),
{
    let mut i: usize = 0;
    while i < list.len()
        invariant
            i <= list@.len(),
            forall|k: int| 0 <= k < i ==> list@[k] != x,
        decreases list@.len() - i,
    {
        if list[i] == x {
            return true;
        }
        i = i + 1;
    }
    false
}

/// Keeps of `sockets` the candidates that occur in `valid_sockets`, in their order.
pub fn check_valid(sockets: &mut Vec<usize>, valid_sockets: &[usize])
    ensures
        final(sockets)@ == old(sockets)@.filter(member_of(valid_sockets@)),
{
    let ghost keep = member_of(valid_sockets@);
    let mut kept: Vec<usize> = Vec::new();
    let mut i: usize = 0;
    proof {
        reveal(Seq::filter);
    }
    while i < sockets.len()
        invariant
            i <= sockets@.len(),
            sockets@ == old(sockets)@,
            keep == member_of(valid_sockets@),
            kept@ == sockets@.take(i as int).filter(keep),
        decreases sockets@.len() - i,
    {
        let s = sockets[i];
        proof {
            reveal(Seq::filter);
            assert(sockets@.take(i + 1).drop_last() =~= sockets@.take(i as int));
        }
        if occurs(valid_sockets, s) {
            kept.push(s);
        }
        i = i + 1;
    }
    assert(sockets@.take(i as int) =~= sockets@);
    *sockets = kept;
}

/// Everything the candidates of `cell` accept on side `direction`.
pub fn get_valid_sockets(cell: &Cell, direction: Direction, tiles: &[Tile]) -> (r: Vec<usize>)
    requires
        forall|k: int| 0 <= k < cell@.sockets.len() ==> (#[trigger] cell@.sockets[k]) < tiles@.len(),
    ensures
        r@ == joined_lists(cell@.sockets, tiles.deep_view(), direction),
{
    let mut gathered: Vec<usize> = Vec::new();
    let mut i: usize = 0;
    while i < cell.sockets.len()
        invariant
            i <= cell@.sockets.len(),
            forall|k: int| 0 <= k < cell@.sockets.len() ==> (#[trigger] cell@.sockets[k]) < tiles@.len(),
            gathered@ == joined_lists(cell@.sockets.take(i as int), tiles.deep_view(), direction),
        decreases cell@.sockets.len() - i,
    {
        let socket = cell.sockets[i];
        let mut valid = tiles[socket].valid(direction);
        proof {
            assert(cell@.sockets.take(i + 1).drop_last() =~= cell@.sockets.take(i as int));
        }
        gathered.append(&mut valid);
        i = i + 1;
    }
    assert(cell@.sockets.take(i as int) =~= cell@.sockets);
    gathered
}

/// Narrows `sockets` to the candidates that some candidate of the
/// neighbouring `cell` accepts on side `direction`.
pub fn cell_collapse(cell: &Cell, direction: Direction, sockets: &mut Vec<usize>, tiles: &[Tile])
    requires
        forall|k: int| 0 <= k < cell@.sockets.len() ==> (#[trigger] cell@.sockets[k]) < tiles@.len(),
    ensures
        final(sockets)@ == old(sockets)@.filter(
            accepted_by(tiles.deep_view(), cell@.sockets, direction),
        ),
{
    let valid = get_valid_sockets(cell, direction, tiles);
    check_valid(sockets, valid.as_slice());
    proof {
        let by_list = member_of(valid@);
        let by_support = accepted_by(tiles.deep_view(), cell@.sockets, direction);
        assert forall|i: int| 0 <= i < old(sockets)@.len() implies by_list(#[trigger] old(sockets)@[i])
            == by_support(old(sockets)@[i]) by {
            lemma_joined_lists_contains(cell@.sockets, tiles.deep_view(), direction, old(sockets)@[i]);
        }
        lemma_filter_same(old(sockets)@, by_list, by_support);
    }
}

/// Whether the position `(x, y)` of a grid of side `dim` has a neighbour on side `d`.
/// The grid does not wrap around.
pub open spec fn has_neighbor(dim: int, x: int, y: int, d: Direction) -> bool {
    match d {
        Direction::Up => y > 0,
        Direction::Right => x < dim - 1,
        Direction::Down => y < dim - 1,
        Direction::Left => x > 0,
    }
}

/// The place in the grid of the neighbour of `(x, y)` on side `d`.
pub open spec fn neighbor(dim: int, x: int, y: int, d: Direction) -> int {
    match d {
        Direction::Up => x + (y - 1) * dim,
        Direction::Right => x + 1 + y * dim,
        Direction::Down => x + (y + 1) * dim,
        Direction::Left => x - 1 + y * dim,
    }
}

/// Whether side `d` of position `(x, y)` leaves candidate `k` standing: there
/// is no neighbour on that side, or one of the neighbour's candidates accepts
/// `k` on its side facing back.
pub open spec fn side_holds(
    grid: Seq<CellView>,
    tiles: Seq<TileView>,
    dim: int,
    x: int,
    y: int,
    d: Direction,
    k: usize,
) -> bool {
    has_neighbor(dim, x, y, d) ==> supported(
        tiles,
        grid[neighbor(dim, x, y, d)].sockets,
        d.reversed(),
        k,
    )
}

/// The candidates that all four sides of `(x, y)` leave standing.
pub open spec fn admits(grid: Seq<CellView>, tiles: Seq<TileView>, dim: int, x: int, y: int) -> spec_fn(
    usize,
) -> bool {
    |k: usize|
        side_holds(grid, tiles, dim, x, y, Direction::Up, k) && side_holds(
            grid,
            tiles,
            dim,
            x,
            y,
            Direction::Right,
            k,
        ) && side_holds(grid, tiles, dim, x, y, Direction::Down, k) && side_holds(
            grid,
            tiles,
            dim,
            x,
            y,
            Direction::Left,
            k,
        )
}

/// The cell at `(x, y)` after one sweep: a collapsed cell stays as it is; any
/// other gets, in ascending order, the variants of the whole catalog that its
/// neighbours in `grid` leave standing.
pub open spec fn propagated_cell(
    grid: Seq<CellView>,
    tiles: Seq<TileView>,
    dim: int,
    x: int,
    y: int,
) -> CellView {
    let cell = grid[x + y * dim];
    if cell.collapsed {
        cell
    } else {
        CellView {
            collapsed: false,
            sockets: universe(tiles.len()).filter(admits(grid, tiles, dim, x, y)),
        }
    }
}

/// The grid after one sweep. Every cell is recomputed from `grid` as it was
/// before the sweep, never from a cell the sweep has already renewed.
pub open spec fn propagated(grid: Seq<CellView>, tiles: Seq<TileView>, dim: int) -> Seq<CellView> {
    Seq::new(grid.len(), |i: int| propagated_cell(grid, tiles, dim, i % dim, i / dim))
}

/// What a sweep leaves in the domain of an uncollapsed cell, read as a set:
/// `k` is in it exactly when `k` is a variant of the catalog and, on every
/// side where the cell has a neighbour, some candidate of that neighbour
/// accepts `k` on its side facing back.
pub proof fn lemma_propagated_members(
    grid: Seq<CellView>,
    tiles: Seq<TileView>,
    dim: int,
    x: int,
    y: int,
    k: usize,
)
    requires
        tiles.len() <= usize::MAX,
        !grid[x + y * dim].collapsed,
    ensures
        propagated_cell(grid, tiles, dim, x, y).sockets.contains(k) <==> k < tiles.len() && forall|
            d: Direction,
        | #[trigger] side_holds(grid, tiles, dim, x, y, d, k),
{
    lemma_filter_members(universe(tiles.len()), admits(grid, tiles, dim, x, y), k);
    if k < tiles.len() {
        assert(universe(tiles.len())[k as int] == k);
    }
}

/// Row-major addressing: `(x, y)` lies at `x + y * dim`, inside the grid, and
/// the place gives the coordinates back.
pub proof fn lemma_row_major(x: int, y: int, dim: int)
    requires
        0 <= x < dim,
        0 <= y < dim,
    ensures
        0 <= y * dim <= x + y * dim < dim * dim,
        (x + y * dim) % dim == x,
        (x + y * dim) / dim == y,
{
    assert(0 <= y * dim <= (dim - 1) * dim) by (nonlinear_arith)
        requires
            0 <= y < dim,
    ;
    assert((dim - 1) * dim + dim == dim * dim) by (nonlinear_arith);
    vstd::arithmetic::div_mod::lemma_fundamental_div_mod_converse(x + y * dim, dim, y, x);
}

/// One propagation sweep over the whole grid.
///
/// Collapsed cells are kept. Every other cell gets a new domain, computed
/// from the whole catalog and the domains its neighbours had before the
/// sweep.
pub fn wave_collapse(grid: &mut Vec<Cell>, tiles: &[Tile], dim: usize)
    requires
        old(grid)@.len() == dim * dim,
        grid_within(old(grid).deep_view(), tiles@.len() as nat),
    ensures
        final(grid).deep_view() == propagated(old(grid).deep_view(), tiles.deep_view(), dim as int),
        final(grid)@.len() == old(grid)@.len(),
        complete(old(grid).deep_view()) ==> final(grid).deep_view() == old(grid).deep_view(),
        grid_valid(old(grid).deep_view()) ==> grid_valid(final(grid).deep_view()),
        grid_within(final(grid).deep_view(), tiles@.len() as nat),
        grid_ascending(old(grid).deep_view()) ==> grid_ascending(final(grid).deep_view()),
{
    let ghost before = grid.deep_view();
    let ghost catalog = tiles.deep_view();
    let cells = grid.len();
    let mut next_grid: Vec<Cell> = Vec::with_capacity(cells);
    let mut j: usize = 0;
    while j < dim
        invariant
            j <= dim,
            cells == dim * dim,
            grid.deep_view() == before,
            grid@.len() == dim * dim,
            grid_within(before, tiles@.len() as nat),
            catalog == tiles.deep_view(),
            next_grid@.len() == j * dim,
            forall|k: int|
                0 <= k < next_grid@.len() ==> (#[trigger] next_grid@[k])@ == propagated_cell(
                    before,
                    catalog,
                    dim as int,
                    k % (dim as int),
                    k / (dim as int),
                ),
        decreases dim - j,
    {
        let mut i: usize = 0;
        while i < dim
            invariant
                i <= dim,
                j < dim,
                cells == dim * dim,
                grid.deep_view() == before,
                grid@.len() == dim * dim,
                grid_within(before, tiles@.len() as nat),
                catalog == tiles.deep_view(),
                next_grid@.len() == j * dim + i,
                forall|k: int|
                    0 <= k < next_grid@.len() ==> (#[trigger] next_grid@[k])@ == propagated_cell(
                        before,
                        catalog,
                        dim as int,
                        k % (dim as int),
                        k / (dim as int),
                    ),
            decreases dim - i,
        {
            proof {
                lemma_row_major(i as int, j as int, dim as int);
            }
            let index = i + j * dim;
            assert(before[index as int] == grid@[index as int]@);
            if grid[index].collapsed {
                next_grid.push(grid[index].clone());
            } else {
                let mut sockets = Cell::from_value(tiles.len()).sockets;
                let ghost all = universe(tiles@.len() as nat);
                let ghost x = i as int;
                let ghost y = j as int;
                let ghost d = dim as int;
                let ghost up = |k: usize| side_holds(before, catalog, d, x, y, Direction::Up, k);
                let ghost right = |k: usize| side_holds(before, catalog, d, x, y, Direction::Right, k);
                let ghost down = |k: usize| side_holds(before, catalog, d, x, y, Direction::Down, k);
                let ghost left = |k: usize| side_holds(before, catalog, d, x, y, Direction::Left, k);
                let ghost upto_right = |k: usize| up(k) && right(k);
                let ghost upto_down = |k: usize| upto_right(k) && down(k);
                if j > 0 {
                    proof {
                        lemma_row_major(x, y - 1, d);
                        assert(before[x + (y - 1) * d] == grid@[x + (y - 1) * d]@);
                    }
                    cell_collapse(&grid[i + (j - 1) * dim], Direction::Down, &mut sockets, tiles);
                    proof {
                        let narrowed = accepted_by(catalog, before[x + (y - 1) * d].sockets, Direction::Down);
                        lemma_filter_same(all, narrowed, up);
                    }
                } else {
                    proof {
                        lemma_filter_all(all, up);
                    }
                }
                assert(sockets@ == all.filter(up));
                if i < dim - 1 {
                    proof {
                        lemma_row_major(x + 1, y, d);
                        assert(before[x + 1 + y * d] == grid@[x + 1 + y * d]@);
                    }
                    cell_collapse(&grid[i + 1 + j * dim], Direction::Left, &mut sockets, tiles);
                    proof {
                        let narrowed = accepted_by(catalog, before[x + 1 + y * d].sockets, Direction::Left);
                        lemma_filter_same(all.filter(up), narrowed, right);
                    }
                } else {
                    proof {
                        lemma_filter_all(all.filter(up), right);
                    }
                }
                assert(sockets@ == all.filter(up).filter(right));
                proof {
                    lemma_filter_twice(all, up, right, upto_right);
                }
                if j < dim - 1 {
                    proof {
                        lemma_row_major(x, y + 1, d);
                        assert(before[x + (y + 1) * d] == grid@[x + (y + 1) * d]@);
                    }
                    cell_collapse(&grid[i + (j + 1) * dim], Direction::Up, &mut sockets, tiles);
                    proof {
                        let narrowed = accepted_by(catalog, before[x + (y + 1) * d].sockets, Direction::Up);
                        lemma_filter_same(all.filter(upto_right), narrowed, down);
                    }
                } else {
                    proof {
                        lemma_filter_all(all.filter(upto_right), down);
                    }
                }
                assert(sockets@ == all.filter(upto_right).filter(down));
                proof {
                    lemma_filter_twice(all, upto_right, down, upto_down);
                }
                if i > 0 {
                    proof {
                        lemma_row_major(x - 1, y, d);
                        assert(before[x - 1 + y * d] == grid@[x - 1 + y * d]@);
                    }
                    cell_collapse(&grid[i - 1 + j * dim], Direction::Right, &mut sockets, tiles);
                    proof {
                        let narrowed = accepted_by(catalog, before[x - 1 + y * d].sockets, Direction::Right);
                        lemma_filter_same(all.filter(upto_down), narrowed, left);
                    }
                } else {
                    proof {
                        lemma_filter_all(all.filter(upto_down), left);
                    }
                }
                assert(sockets@ == all.filter(upto_down).filter(left));
                proof {
                    lemma_filter_twice(all, upto_down, left, admits(before, catalog, d, x, y));
                }
                next_grid.push(Cell::from_list(sockets));
            }
            i = i + 1;
        }
        assert(j * dim + dim == (j + 1) * dim) by (nonlinear_arith);
        j = j + 1;
    }
    *grid = next_grid;
    assert(grid.deep_view() =~= propagated(before, catalog, dim as int));
    proof {
        assert(catalog.len() == tiles.len());
        lemma_propagated_valid(before, catalog, dim as int);
        if complete(before) {
            lemma_propagated_complete(before, catalog, dim as int);
        }
    }
}

/// A sweep keeps every collapsed cell as it is and leaves every other cell
/// uncollapsed, so it keeps a valid grid valid; and every domain it computes
/// lies within the catalog.
pub proof fn lemma_propagated_valid(grid: Seq<CellView>, tiles: Seq<TileView>, dim: int)
    requires
        0 <= dim,
        grid.len() == dim * dim,
    ensures
        propagated(grid, tiles, dim).len() == grid.len(),
        forall|i: int|
            0 <= i < grid.len() ==> (#[trigger] propagated(grid, tiles, dim)[i]).collapsed
                == grid[i].collapsed,
        forall|i: int|
            0 <= i < grid.len() && grid[i].collapsed ==> #[trigger] propagated(grid, tiles, dim)[i]
                == grid[i],
        grid_valid(grid) ==> grid_valid(propagated(grid, tiles, dim)),
        grid_within(grid, tiles.len()) ==> grid_within(propagated(grid, tiles, dim), tiles.len()),
        grid_ascending(grid) && tiles.len() <= usize::MAX ==> grid_ascending(
            propagated(grid, tiles, dim),
        ),
{
    let after = propagated(grid, tiles, dim);
    if grid_ascending(grid) && tiles.len() <= usize::MAX {
        assert forall|i: int| 0 <= i < after.len() implies ascending((#[trigger] after[i]).sockets) by {
            lemma_place(i, dim);
            if grid[i].collapsed {
                assert(ascending(grid[i].sockets));
            } else {
                lemma_universe_filter_ascending(
                    tiles.len(),
                    admits(grid, tiles, dim, i % dim, i / dim),
                );
            }
        }
    }
    assert forall|i: int| 0 <= i < grid.len() implies (#[trigger] after[i]).collapsed
        == grid[i].collapsed && (grid[i].collapsed ==> after[i] == grid[i]) by {
        lemma_place(i, dim);
    }
    if grid_valid(grid) {
        assert forall|i: int| 0 <= i < after.len() implies cell_valid(#[trigger] after[i]) by {
            assert(cell_valid(grid[i]));
        }
    }
    if grid_within(grid, tiles.len()) {
        assert forall|i: int, k: int| 0 <= i < after.len() && 0 <= k < after[i].sockets.len() implies (
        #[trigger] after[i].sockets[k]) < tiles.len() by {
            lemma_place(i, dim);
            if grid[i].collapsed {
                assert(after[i].sockets[k] == grid[i].sockets[k]);
            } else {
                let keep = admits(grid, tiles, dim, i % dim, i / dim);
                let v = after[i].sockets[k];
                assert(universe(tiles.len()).filter(keep).contains(v));
                lemma_filter_members(universe(tiles.len()), keep, v);
            }
        }
    }
}

/// A place of the grid and its coordinates: `i` lies at `(i % dim, i / dim)`.
pub proof fn lemma_place(i: int, dim: int)
    requires
        0 <= dim,
        0 <= i < dim * dim,
    ensures
        0 <= i % dim < dim,
        0 <= i / dim < dim,
        i % dim + (i / dim) * dim == i,
{
    assert(dim > 0) by (nonlinear_arith)
        requires
            0 <= dim,
            0 <= i < dim * dim,
    ;
    vstd::arithmetic::div_mod::lemma_fundamental_div_mod(i, dim);
    assert(0 <= i / dim < dim) by (nonlinear_arith)
        requires
            0 <= i < dim * dim,
            dim > 0,
            i == dim * (i / dim) + i % dim,
            0 <= i % dim < dim,
    ;
    assert(dim * (i / dim) == (i / dim) * dim) by (nonlinear_arith);
}

/// A sweep over a grid in which every cell is collapsed changes nothing.
pub proof fn lemma_propagated_complete(grid: Seq<CellView>, tiles: Seq<TileView>, dim: int)
    requires
        0 <= dim,
        grid.len() == dim * dim,
        complete(grid),
    ensures
        propagated(grid, tiles, dim) == grid,
{
    lemma_propagated_valid(grid, tiles, dim);
}

} // verus!
