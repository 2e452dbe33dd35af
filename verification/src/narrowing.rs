//! Domains only narrow. From a fresh grid on, no turn of the loop gives a
//! cell a candidate it did not have before, until a contradiction makes
//! generation start over.

use vstd::prelude::*;
use crate::cell::{CellView, fresh_grid, universe};
use crate::direction::Direction;
use crate::filters::lemma_filter_members;
use crate::generate::{
    State, contradictory, follows, is_run, lemma_turn_keeps_valid, running_outcome, turn,
};
use crate::propagate::{
    admits, has_neighbor, lemma_place, lemma_row_major, neighbor, propagated, side_holds, supported,
};
use crate::tile::TileView;

verus! {

/// Whether every candidate of `a` is a candidate of `b`.
pub open spec fn subdomain(a: Seq<usize>, b: Seq<usize>) -> bool {
    forall|k: int| 0 <= k < a.len() ==> b.contains(#[trigger] a[k])
}

/// Whether grid `a` could have come from grid `b` by narrowing: both have
/// the same size, every cell of `a` has only candidates it has in `b`, and
/// every cell that is collapsed in `b` is the same in `a`.
pub open spec fn narrows(a: Seq<CellView>, b: Seq<CellView>) -> bool {
    &&& a.len() == b.len()
    &&& forall|i: int| 0 <= i < a.len() ==> subdomain((#[trigger] a[i]).sockets, b[i].sockets)
    &&& forall|i: int| 0 <= i < a.len() && (#[trigger] b[i]).collapsed ==> a[i] == b[i]
}

/// Whether a sweep over the grid would give no uncollapsed cell a candidate
/// that it does not have already.
pub open spec fn settled(grid: Seq<CellView>, tiles: Seq<TileView>, dim: int) -> bool {
    forall|i: int|
        0 <= i < grid.len() && !(#[trigger] grid[i]).collapsed ==> subdomain(
            propagated(grid, tiles, dim)[i].sockets,
            grid[i].sockets,
        )
}

/// What a larger domain of a neighbour supports, a smaller one supports too.
pub proof fn lemma_supported_monotone(
    tiles: Seq<TileView>,
    small: Seq<usize>,
    large: Seq<usize>,
    d: Direction,
    k: usize,
)
    requires
        subdomain(small, large),
        supported(tiles, small, d, k),
    ensures
        supported(tiles, large, d, k),
{
    let c = choose|c: int| 0 <= c < small.len() && tiles[(#[trigger] small[c]) as int].valid(d).contains(k);
    assert(large.contains(small[c]));
    let e = choose|e: int| 0 <= e < large.len() && large[e] == small[c];
    assert(tiles[large[e] as int].valid(d).contains(k));
}

/// A candidate that the neighbours leave standing in a narrower grid is
/// left standing by them in the wider grid too.
pub proof fn lemma_admits_monotone(
    a: Seq<CellView>,
    b: Seq<CellView>,
    tiles: Seq<TileView>,
    dim: int,
    x: int,
    y: int,
    k: usize,
)
    requires
        0 <= x < dim,
        0 <= y < dim,
        a.len() == dim * dim,
        b.len() == dim * dim,
        forall|i: int| 0 <= i < a.len() ==> subdomain((#[trigger] a[i]).sockets, b[i].sockets),
        admits(a, tiles, dim, x, y)(k),
    ensures
        admits(b, tiles, dim, x, y)(k),
{
    assert forall|d: Direction| side_holds(a, tiles, dim, x, y, d, k) implies side_holds(
        b,
        tiles,
        dim,
        x,
        y,
        d,
        k,
    ) by {
        if has_neighbor(dim, x, y, d) {
            let n = neighbor(dim, x, y, d);
            match d {
                Direction::Up => lemma_row_major(x, y - 1, dim),
                Direction::Right => lemma_row_major(x + 1, y, dim),
                Direction::Down => lemma_row_major(x, y + 1, dim),
                Direction::Left => lemma_row_major(x - 1, y, dim),
            }
            assert(subdomain(a[n].sockets, b[n].sockets));
            lemma_supported_monotone(tiles, a[n].sockets, b[n].sockets, d.reversed(), k);
        }
    }
}

/// Sweeping a narrower grid gives an uncollapsed cell no candidate that
/// sweeping the wider grid would not give it.
pub proof fn lemma_propagated_monotone(
    a: Seq<CellView>,
    b: Seq<CellView>,
    tiles: Seq<TileView>,
    dim: int,
    i: int,
)
    requires
        0 <= dim,
        a.len() == dim * dim,
        b.len() == dim * dim,
        forall|n: int| 0 <= n < a.len() ==> subdomain((#[trigger] a[n]).sockets, b[n].sockets),
        0 <= i < a.len(),
        !a[i].collapsed,
        !b[i].collapsed,
    ensures
        subdomain(propagated(a, tiles, dim)[i].sockets, propagated(b, tiles, dim)[i].sockets),
{
    lemma_place(i, dim);
    let x = i % dim;
    let y = i / dim;
    let swept = propagated(a, tiles, dim)[i].sockets;
    let all = universe(tiles.len());
    assert forall|k: int| 0 <= k < swept.len() implies propagated(b, tiles, dim)[i].sockets.contains(
        #[trigger] swept[k],
    ) by {
        let v = swept[k];
        assert(swept.contains(v));
        lemma_filter_members(all, admits(a, tiles, dim, x, y), v);
        lemma_admits_monotone(a, b, tiles, dim, x, y, v);
        lemma_filter_members(all, admits(b, tiles, dim, x, y), v);
    }
}

/// Every domain is a subdomain of itself.
pub proof fn lemma_subdomain_reflexive(a: Seq<usize>)
    ensures
        subdomain(a, a),
{
}

/// Being a subdomain carries over: from `a` to `b` and from `b` to `c`
/// makes from `a` to `c`.
pub proof fn lemma_subdomain_transitive(a: Seq<usize>, b: Seq<usize>, c: Seq<usize>)
    requires
        subdomain(a, b),
        subdomain(b, c),
    ensures
        subdomain(a, c),
{
    assert forall|k: int| 0 <= k < a.len() implies c.contains(#[trigger] a[k]) by {
        assert(b.contains(a[k]));
        let e = choose|e: int| 0 <= e < b.len() && b[e] == a[k];
        assert(c.contains(b[e]));
    }
}

/// A fresh grid is settled: a sweep can only take candidates from the whole
/// universe.
pub proof fn lemma_fresh_settled(tiles: Seq<TileView>, dim: int)
    requires
        0 <= dim,
    ensures
        settled(fresh_grid((dim * dim) as nat, tiles.len()), tiles, dim),
{
    assert(0 <= dim * dim) by (nonlinear_arith)
        requires
            0 <= dim,
    ;
    let grid = fresh_grid((dim * dim) as nat, tiles.len());
    let all = universe(tiles.len());
    assert forall|i: int| 0 <= i < grid.len() && !(#[trigger] grid[i]).collapsed implies subdomain(
        propagated(grid, tiles, dim)[i].sockets,
        grid[i].sockets,
    ) by {
        lemma_place(i, dim);
        let swept = propagated(grid, tiles, dim)[i].sockets;
        assert forall|k: int| 0 <= k < swept.len() implies all.contains(#[trigger] swept[k]) by {
            assert(swept.contains(swept[k]));
            lemma_filter_members(all, admits(grid, tiles, dim, i % dim, i / dim), swept[k]);
        }
    }
}

/// A turn on a settled grid leaves a settled grid. Unless the turn starts
/// over, it narrows the grid: no cell gains a candidate, and no collapsed
/// cell changes.
pub proof fn lemma_turn_narrows(
    before: Seq<CellView>,
    after: Seq<CellView>,
    tiles: Seq<TileView>,
    dim: int,
    state: State,
)
    requires
        0 <= dim,
        before.len() == dim * dim,
        settled(before, tiles, dim),
        turn(before, after, tiles, dim, state),
    ensures
        settled(after, tiles, dim),
        state != State::Contradiction ==> narrows(after, before),
{
    match state {
        State::Complete => {
            assert forall|i: int| 0 <= i < before.len() implies subdomain(
                (#[trigger] before[i]).sockets,
                before[i].sockets,
            ) by {
                lemma_subdomain_reflexive(before[i].sockets);
            }
        },
        State::Contradiction => {
            lemma_fresh_settled(tiles, dim);
        },
        State::Running => {
            let (target, pick) = choose|target: usize, pick: usize| #[trigger]
                running_outcome(before, after, tiles, dim, target, pick);
            let middle = before.update(
                target as int,
                CellView { collapsed: true, sockets: seq![pick] },
            );
            // Collapsing narrows the grid.
            assert forall|n: int| 0 <= n < middle.len() implies subdomain(
                (#[trigger] middle[n]).sockets,
                before[n].sockets,
            ) by {
                if n == target {
                    assert(middle[n].sockets[0] == pick);
                } else {
                    lemma_subdomain_reflexive(before[n].sockets);
                }
            }
            // Sweeping the collapsed grid narrows it further, since sweeping
            // the grid as it was would have widened nothing.
            assert forall|n: int| 0 <= n < after.len() implies subdomain(
                (#[trigger] after[n]).sockets,
                middle[n].sockets,
            ) by {
                lemma_place(n, dim);
                if middle[n].collapsed {
                    lemma_subdomain_reflexive(middle[n].sockets);
                } else {
                    lemma_propagated_monotone(middle, before, tiles, dim, n);
                    lemma_subdomain_transitive(
                        after[n].sockets,
                        propagated(before, tiles, dim)[n].sockets,
                        before[n].sockets,
                    );
                }
            }
            assert forall|n: int| 0 <= n < after.len() implies subdomain(
                (#[trigger] after[n]).sockets,
                before[n].sockets,
            ) by {
                lemma_subdomain_transitive(after[n].sockets, middle[n].sockets, before[n].sockets);
            }
            assert forall|n: int| 0 <= n < after.len() && (#[trigger] before[n]).collapsed implies after[n]
                == before[n] by {
                lemma_place(n, dim);
                assert(!before[target as int].collapsed);
            }
            // And the grid that comes out is settled in its turn.
            assert forall|i: int| 0 <= i < after.len() && !(#[trigger] after[i]).collapsed implies subdomain(
                propagated(after, tiles, dim)[i].sockets,
                after[i].sockets,
            ) by {
                lemma_place(i, dim);
                lemma_propagated_monotone(after, middle, tiles, dim, i);
            }
        },
    }
}

/// Every grid that generation can reach is settled.
pub proof fn lemma_reachable_settled(run: Seq<Seq<CellView>>, tiles: Seq<TileView>, dim: int, at: int)
    requires
        0 <= dim,
        is_run(run, tiles, dim),
        0 <= at < run.len(),
    ensures
        run[at].len() == dim * dim,
        settled(run[at], tiles, dim),
    decreases at,
{
    assert(0 <= dim * dim) by (nonlinear_arith)
        requires
            0 <= dim,
    ;
    if at == 0 {
        lemma_fresh_settled(tiles, dim);
    } else {
        lemma_reachable_settled(run, tiles, dim, at - 1);
        assert(follows(run, tiles, dim, at - 1));
        let state = choose|state: State| #[trigger] turn(run[at - 1], run[at - 1 + 1], tiles, dim, state);
        lemma_turn_narrows(run[at - 1], run[at], tiles, dim, state);
        lemma_turn_keeps_valid(run[at - 1], run[at], tiles, dim, state);
    }
}

/// Domains are narrowed, never widened. In the course of generation, each
/// grid narrows the one before it, except where generation starts over
/// because the grid before held a contradiction.
pub proof fn lemma_run_narrows(run: Seq<Seq<CellView>>, tiles: Seq<TileView>, dim: int, at: int)
    requires
        0 <= dim,
        is_run(run, tiles, dim),
        0 <= at < run.len() - 1,
        !contradictory(run[at]),
    ensures
        narrows(run[at + 1], run[at]),
{
    lemma_reachable_settled(run, tiles, dim, at);
    assert(follows(run, tiles, dim, at));
    let state = choose|state: State| #[trigger] turn(run[at], run[at + 1], tiles, dim, state);
    lemma_turn_narrows(run[at], run[at + 1], tiles, dim, state);
}

} // verus!
