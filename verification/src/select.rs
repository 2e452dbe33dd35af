//! The entropy selector: which cells are next in line to be collapsed.

use vstd::prelude::*;
use crate::cell::{Cell, CellView, ascending, universe};
use crate::filters::{lemma_filter_members, lemma_universe_filter_ascending, lemma_universe_filter_step};

verus! {

/// Whether cell `i` of the grid is uncollapsed and no uncollapsed cell has a
/// smaller domain.
pub open spec fn is_least(grid: Seq<CellView>) -> spec_fn(usize) -> bool {
    |i: usize|
        i < grid.len() && !grid[i as int].collapsed && forall|j: int|
            0 <= j < grid.len() && !(#[trigger] grid[j]).collapsed ==> grid[i as int].sockets.len()
                <= grid[j].sockets.len()
}

/// The tie group: the places of all uncollapsed cells of least entropy, in
/// ascending order.
pub open spec fn least_entropy(grid: Seq<CellView>) -> Seq<usize> {
    universe(grid.len()).filter(is_least(grid))
}

/// Whether every cell of the grid is collapsed.
pub open spec fn complete(grid: Seq<CellView>) -> bool {
    forall|i: int| 0 <= i < grid.len() ==> (#[trigger] grid[i]).collapsed
}

/// The tie group is empty exactly when the grid is complete, and each of its
/// members is a place of the grid that passes `is_least`.
pub proof fn lemma_least_entropy(grid: Seq<CellView>)
    requires
        grid.len() <= usize::MAX,
    ensures
        least_entropy(grid).len() == 0 <==> complete(grid),
        forall|k: int|
            0 <= k < least_entropy(grid).len() ==> is_least(grid)(#[trigger] least_entropy(grid)[k]),
        forall|t: usize| least_entropy(grid).contains(t) <==> is_least(grid)(t),
{
    let all = universe(grid.len());
    let group = least_entropy(grid);
    assert forall|t: usize| group.contains(t) <==> is_least(grid)(t) by {
        lemma_filter_members(all, is_least(grid), t);
        if is_least(grid)(t) {
            assert(all[t as int] == t);
        }
    }
    assert forall|k: int| 0 <= k < group.len() implies is_least(grid)(#[trigger] group[k]) by {
        assert(group.contains(group[k]));
    }
    if complete(grid) {
        if group.len() > 0 {
            assert(group.contains(group[0]));
        }
    } else {
        let m = least_uncollapsed(grid, grid.len() as int);
        lemma_least_uncollapsed(grid, grid.len() as int);
        assert(is_least(grid)(m as usize));
        assert(group.contains(m as usize));
    }
}

/// Among the first `n` cells, the first uncollapsed one with the smallest
/// domain; `-1` when all of them are collapsed.
spec fn least_uncollapsed(grid: Seq<CellView>, n: int) -> int
    decreases n,
{
    if n <= 0 {
        -1
    } else {
        let before = least_uncollapsed(grid, n - 1);
        if grid[n - 1].collapsed {
            before
        } else if before < 0 || grid[n - 1].sockets.len() < grid[before].sockets.len() {
            n - 1
        } else {
            before
        }
    }
}

/// `least_uncollapsed` finds an uncollapsed cell of least entropy whenever
/// there is an uncollapsed cell at all.
proof fn lemma_least_uncollapsed(grid: Seq<CellView>, n: int)
    requires
        0 <= n <= grid.len(),
    ensures
        -1 <= least_uncollapsed(grid, n) < n,
        least_uncollapsed(grid, n) < 0 ==> forall|j: int| 0 <= j < n ==> (#[trigger] grid[j]).collapsed,
        least_uncollapsed(grid, n) >= 0 ==> !grid[least_uncollapsed(grid, n)].collapsed,
        least_uncollapsed(grid, n) >= 0 ==> forall|j: int|
            0 <= j < n && !(#[trigger] grid[j]).collapsed ==> grid[least_uncollapsed(
                grid,
                n,
            )].sockets.len() <= grid[j].sockets.len(),
    decreases n,
{
    if n > 0 {
        lemma_least_uncollapsed(grid, n - 1);
    }
}

/// The entropy selector: the places of the uncollapsed cells whose domain is
/// smallest, in ascending order. Ties are kept, not broken. A cell with an
/// empty domain belongs to the group when nothing is smaller.
pub fn pick_cell_with_least_entropy(grid: &Vec<Cell>) -> (r: Vec<usize>)
    ensures
        r@ == least_entropy(grid.deep_view()),
        ascending(r@),
        r@.len() == 0 <==> complete(grid.deep_view()),
        forall|k: int| 0 <= k < r@.len() ==> is_least(grid.deep_view())(#[trigger] r@[k]),
        forall|a: int, b: int|
            0 <= a < r@.len() && 0 <= b < r@.len() ==> grid.deep_view()[(#[trigger] r@[a]) as int].sockets.len()
                == grid.deep_view()[(#[trigger] r@[b]) as int].sockets.len(),
{
    let ghost cells = grid.deep_view();
    let mut least: Option<usize> = None;
    let mut i: usize = 0;
    while i < grid.len()
        invariant
            i <= grid@.len(),
            cells == grid.deep_view(),
            match least {
                Some(len) => least_uncollapsed(cells, i as int) >= 0 && len == cells[least_uncollapsed(
                    cells,
                    i as int,
                )].sockets.len(),
                None => least_uncollapsed(cells, i as int) < 0,
            },
        decreases grid@.len() - i,
    {
        proof {
            lemma_least_uncollapsed(cells, i as int);
        }
        if !grid[i].collapsed {
            let len = grid[i].sockets.len();
            match least {
                Some(so_far) => {
                    if len < so_far {
                        least = Some(len);
                    }
                },
                None => {
                    least = Some(len);
                },
            }
        }
        i = i + 1;
    }
    let mut group: Vec<usize> = Vec::new();
    proof {
        lemma_least_uncollapsed(cells, cells.len() as int);
        lemma_least_entropy(cells);
        lemma_universe_filter_step(0, is_least(cells));
        lemma_universe_filter_ascending(cells.len(), is_least(cells));
    }
    if let Some(len) = least {
        let mut k: usize = 0;
        while k < grid.len()
            invariant
                k <= grid@.len(),
                cells == grid.deep_view(),
                least_uncollapsed(cells, cells.len() as int) >= 0,
                len == cells[least_uncollapsed(cells, cells.len() as int)].sockets.len(),
                group@ == universe(k as nat).filter(is_least(cells)),
            decreases grid@.len() - k,
        {
            proof {
                lemma_least_uncollapsed(cells, cells.len() as int);
                lemma_universe_filter_step(k as nat, is_least(cells));
            }
            if !grid[k].collapsed && grid[k].sockets.len() == len {
                group.push(k);
            }
            k = k + 1;
        }
    }
    group
}

} // verus!
