//! Building the catalog: variants from raw definitions, their rotated
//! copies, and the adjacency of every variant on every side.

use vstd::prelude::*;
use crate::cell::universe;
use crate::defines::{TileData, TileListData};
use crate::direction::Direction;
use crate::error::MyError;
use crate::filters::lemma_filter_members;
use crate::tile::{Tile, TileView, analyzed, edge_count_message, is_mate, loaded, mates, rotated};
use crate::utility::{compatible, lemma_compatible_mutual};

verus! {

/// The variants of a list of raw definitions, one per definition and in the
/// same order. Each takes its place in the list as its texture id.
pub open spec fn loaded_all(list: Seq<TileData>) -> Seq<TileView> {
    Seq::new(
        list.len(),
        |i: int| loaded(i as usize, list[i].edges.deep_view(), list[i].is_rotate),
    )
}

/// Whether every definition of the list has exactly four edges.
pub open spec fn well_shaped(list: Seq<TileData>) -> bool {
    forall|i: int| 0 <= i < list.len() ==> (#[trigger] list[i]).edges@.len() == 4
}

/// Makes the base variants of the catalog from the raw definitions.
///
/// The definitions are taken as they were read; reading them is the
/// caller's part. A definition without exactly four edges makes the whole
/// list malformed.
pub fn create_tiles_from_json(data: &TileListData) -> (r: Result<Vec<Tile>, MyError>)
    ensures
        well_shaped(data.tile_list@) <==> r is Ok,
        r matches Ok(tiles) ==> tiles.deep_view() == loaded_all(data.tile_list@),
        r matches Ok(tiles) ==> all_wf(tiles.deep_view()) && all_bare(tiles.deep_view()),
        r matches Err(e) ==> e matches MyError::Json(m) && m@ == edge_count_message(),
{
    let mut tiles: Vec<Tile> = Vec::new();
    let mut i: usize = 0;
    while i < data.tile_list.len()
        invariant
            i <= data.tile_list@.len(),
            tiles@.len() == i,
            forall|k: int| 0 <= k < i ==> (#[trigger] data.tile_list@[k]).edges@.len() == 4,
            forall|k: int|
                0 <= k < i ==> (#[trigger] tiles@[k])@ == loaded(
                    k as usize,
                    data.tile_list@[k].edges.deep_view(),
                    data.tile_list@[k].is_rotate,
                ),
        decreases data.tile_list@.len() - i,
    {
        let tile_data = &data.tile_list[i];
        let edges = clone_edges(&tile_data.edges);
        match Tile::load(i, edges, tile_data.is_rotate) {
            Ok(tile) => {
                tiles.push(tile);
            },
            Err(e) => {
                return Err(e);
            },
        }
        i = i + 1;
    }
    Ok(tiles)
}

/// A copy of a list of edge labels.
fn clone_edges(edges: &Vec<String>) -> (copy: Vec<String>)
    ensures
        copy.deep_view() == edges.deep_view(),
        copy@.len() == edges@.len(),
{
    let mut copy: Vec<String> = Vec::new();
    let mut i: usize = 0;
    while i < edges.len()
        invariant
            i <= edges@.len(),
            copy@.len() == i,
            forall|k: int| 0 <= k < i ==> (#[trigger] copy@[k])@ == edges@[k]@,
        decreases edges@.len() - i,
    {
        copy.push(edges[i].clone());
        i = i + 1;
    }
    copy
}

/// The rotated copies that a list of variants calls for: for each variant
/// that may be rotated, in order, its copies turned by one, two and three
/// quarter turns.
pub open spec fn rotations(tiles: Seq<TileView>) -> Seq<TileView>
    decreases tiles.len(),
{
    if tiles.len() == 0 {
        Seq::empty()
    } else {
        let before = rotations(tiles.drop_last());
        let tile = tiles.last();
        if tile.is_rotate {
            before + seq![rotated(tile, 1), rotated(tile, 2), rotated(tile, 3)]
        } else {
            before
        }
    }
}

/// Whether every variant of the list has exactly four edges.
pub open spec fn all_wf(tiles: Seq<TileView>) -> bool {
    forall|i: int| 0 <= i < tiles.len() ==> (#[trigger] tiles[i]).wf()
}

/// Whether no variant of the list has a neighbour listed yet.
pub open spec fn all_bare(tiles: Seq<TileView>) -> bool {
    forall|i: int| 0 <= i < tiles.len() ==> (#[trigger] tiles[i]).bare()
}

/// Appends the rotated copies of every variant that may be rotated. The
/// copies themselves are not rotated again.
pub fn create_rotate_tiles(tiles: &mut Vec<Tile>)
    requires
        all_wf(old(tiles).deep_view()),
    ensures
        final(tiles).deep_view() == old(tiles).deep_view() + rotations(old(tiles).deep_view()),
        all_wf(final(tiles).deep_view()),
        all_bare(old(tiles).deep_view()) ==> all_bare(final(tiles).deep_view()),
{
    let ghost before = tiles.deep_view();
    let mut new_tiles: Vec<Tile> = Vec::new();
    let mut i: usize = 0;
    assert(before.take(0) =~= Seq::<TileView>::empty());
    while i < tiles.len()
        invariant
            i <= tiles@.len(),
            tiles.deep_view() == before,
            all_wf(before),
            new_tiles.deep_view() == rotations(before.take(i as int)),
            all_wf(new_tiles.deep_view()),
            all_bare(new_tiles.deep_view()),
        decreases tiles@.len() - i,
    {
        let ghost earlier = new_tiles.deep_view();
        proof {
            assert(before.take(i + 1).drop_last() =~= before.take(i as int));
            assert(before.take(i + 1).last() == before[i as int]);
            assert(before[i as int] == tiles@[i as int]@);
            assert(before[i as int].wf());
        }
        if tiles[i].is_rotate {
            let mut j: i32 = 1;
            while j < 4
                invariant
                    1 <= j <= 4,
                    i < tiles@.len(),
                    tiles.deep_view() == before,
                    before[i as int] == tiles@[i as int]@,
                    before[i as int].wf(),
                    all_wf(new_tiles.deep_view()),
                    all_bare(new_tiles.deep_view()),
                    new_tiles.deep_view() == earlier + Seq::new(
                        (j - 1) as nat,
                        |k: int| rotated(before[i as int], k + 1),
                    ),
                decreases 4 - j,
            {
                let ghost so_far = new_tiles.deep_view();
                let turned = tiles[i].rotate(j);
                new_tiles.push(turned);
                assert(new_tiles.deep_view() =~= so_far.push(rotated(before[i as int], j as int)));
                assert(new_tiles.deep_view() =~= earlier + Seq::new(
                    j as nat,
                    |k: int| rotated(before[i as int], k + 1),
                ));
                assert forall|k: int| 0 <= k < new_tiles.deep_view().len() implies (
                #[trigger] new_tiles.deep_view()[k]).wf() && new_tiles.deep_view()[k].bare() by {
                    if k < so_far.len() {
                        assert(so_far[k].wf() && so_far[k].bare());
                    }
                }
                j = j + 1;
            }
            assert(Seq::new(3, |k: int| rotated(before[i as int], k + 1)) =~= seq![
                rotated(before[i as int], 1),
                rotated(before[i as int], 2),
                rotated(before[i as int], 3),
            ]);
        }
        i = i + 1;
    }
    assert(before.take(i as int) =~= before);
    let ghost added = new_tiles.deep_view();
    tiles.append(&mut new_tiles);
    assert(tiles.deep_view() =~= before + added);
    assert forall|k: int| 0 <= k < tiles.deep_view().len() implies (#[trigger] tiles.deep_view()[k]).wf() && (
    all_bare(before) ==> tiles.deep_view()[k].bare()) by {
        if k < before.len() {
            assert(before[k].wf());
            assert(all_bare(before) ==> before[k].bare());
        } else {
            assert(added[k - before.len()].wf() && added[k - before.len()].bare());
        }
    }
}

/// The edges of every variant of the catalog, in catalog order.
pub open spec fn all_edges(tiles: Seq<TileView>) -> Seq<Seq<Seq<char>>> {
    Seq::new(tiles.len(), |i: int| tiles[i].edges)
}

/// The catalog after adjacency was derived: every variant has gained, on
/// every side, the other variants of the catalog that fit there.
pub open spec fn with_adjacency(tiles: Seq<TileView>) -> Seq<TileView> {
    Seq::new(tiles.len(), |i: int| analyzed(tiles[i], all_edges(tiles), i))
}

/// The adjacency rule. In a catalog derived from bare variants, `j` is
/// listed on side `d` of `i` exactly when `j` is another variant and its
/// edge on the side facing back mates with the edge of `i` on side `d`.
pub proof fn lemma_adjacency_rule(tiles: Seq<TileView>, i: usize, j: usize, d: Direction)
    requires
        i < tiles.len() <= usize::MAX,
        j < tiles.len(),
        tiles[i as int].bare(),
    ensures
        with_adjacency(tiles)[i as int].valid(d).contains(j) <==> i != j && compatible(
            tiles[j as int].edges[d.reversed().index()],
            tiles[i as int].edges[d.index()],
        ),
{
    let all = all_edges(tiles);
    let own = tiles[i as int].edges;
    lemma_filter_members(universe(all.len()), is_mate(all, own, i as int, d), j);
    assert(universe(all.len())[j as int] == j);
    assert(Seq::<usize>::empty() + mates(all, own, i as int, d) =~= mates(all, own, i as int, d));
    assert(tiles[i as int].valid(d) =~= Seq::<usize>::empty());
}

/// Adjacency is mutual. In a catalog derived from bare variants, `j` is
/// listed on side `d` of `i` exactly when `i` is listed on the opposite
/// side of `j`.
pub proof fn lemma_adjacency_mutual(tiles: Seq<TileView>, i: usize, j: usize, d: Direction)
    requires
        i < tiles.len() <= usize::MAX,
        j < tiles.len(),
        tiles[i as int].bare(),
        tiles[j as int].bare(),
    ensures
        with_adjacency(tiles)[i as int].valid(d).contains(j) <==> with_adjacency(
            tiles,
        )[j as int].valid(d.reversed()).contains(i),
{
    lemma_adjacency_rule(tiles, i, j, d);
    lemma_adjacency_rule(tiles, j, i, d.reversed());
    lemma_compatible_mutual(
        tiles[j as int].edges[d.reversed().index()],
        tiles[i as int].edges[d.index()],
    );
}

/// Derives the adjacency of the whole catalog. To be run once, after the
/// rotated copies were added, since they take part like any other variant.
pub fn generating_adjacency_rules(tiles: &mut Vec<Tile>)
    requires
        all_wf(old(tiles).deep_view()),
    ensures
        final(tiles).deep_view() == with_adjacency(old(tiles).deep_view()),
        all_wf(final(tiles).deep_view()),
{
    let ghost before = tiles.deep_view();
    let mut tile_edges: Vec<Vec<String>> = Vec::new();
    let mut i: usize = 0;
    while i < tiles.len()
        invariant
            i <= tiles@.len(),
            tiles.deep_view() == before,
            all_wf(before),
            tile_edges@.len() == i,
            forall|k: int| 0 <= k < i ==> (#[trigger] tile_edges@[k]).deep_view() == before[k].edges,
        decreases tiles@.len() - i,
    {
        assert(before[i as int] == tiles@[i as int]@);
        tile_edges.push(clone_edges(&tiles[i].edges));
        i = i + 1;
    }
    assert(tile_edges.deep_view() =~= all_edges(before));
    assert forall|j: int| 0 <= j < tile_edges@.len() implies (#[trigger] tile_edges@[j])@.len() == 4 by {
        assert(before[j].wf());
        assert(tile_edges@[j].deep_view().len() == tile_edges@[j]@.len());
    }
    let mut index: usize = 0;
    while index < tiles.len()
        invariant
            index <= tiles@.len(),
            tiles@.len() == before.len(),
            all_wf(before),
            tile_edges.deep_view() == all_edges(before),
            forall|j: int| 0 <= j < tile_edges@.len() ==> (#[trigger] tile_edges@[j])@.len() == 4,
            forall|k: int|
                0 <= k < index ==> (#[trigger] tiles@[k])@ == analyzed(before[k], all_edges(before), k),
            forall|k: int| index <= k < tiles@.len() ==> (#[trigger] tiles@[k])@ == before[k],
        decreases tiles@.len() - index,
    {
        assert(before[index as int].wf());
        tiles[index].analyze(tile_edges.as_slice(), index);
        index = index + 1;
    }
    assert(tiles.deep_view() =~= with_adjacency(before));
    assert forall|k: int| 0 <= k < before.len() implies (#[trigger] with_adjacency(before)[k]).wf() by {
        assert(before[k].wf());
    }
}

} // verus!
