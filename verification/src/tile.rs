//! Tile variants: four edge labels, an orientation, and the neighbours each
//! side accepts.

use vstd::prelude::*;
use vstd::string::*;
use crate::cell::{ascending, universe};
use crate::direction::Direction;
use crate::error::MyError;
use crate::filters::{lemma_universe_filter_ascending, lemma_universe_filter_step};
use crate::utility::{compare_edge, compatible};

verus! {

/// One variant of the catalog.
///
/// `texture` is the id under which the picture of the variant is registered;
/// rotated copies share the id of the variant they were made from. `edges`
/// runs up, right, down, left. `angle` is in degrees, clockwise.
/// `up`, `right`, `down` and `left` list the variants accepted on that side.
#[derive(Debug)]
pub struct Tile {
    pub texture: usize,
    pub edges: Vec<String>,
    pub angle: i64,
    pub is_rotate: bool,
    pub up: Vec<usize>,
    pub right: Vec<usize>,
    pub down: Vec<usize>,
    pub left: Vec<usize>,
}

/// The mathematical view of a variant, which the contracts speak of.
pub struct TileView {
    pub texture: usize,
    pub edges: Seq<Seq<char>>,
    pub angle: int,
    pub is_rotate: bool,
    pub up: Seq<usize>,
    pub right: Seq<usize>,
    pub down: Seq<usize>,
    pub left: Seq<usize>,
}

impl TileView {
    /// A variant is well formed when it has exactly four edges.
    pub open spec fn wf(self) -> bool {
        self.edges.len() == 4
    }

    /// Whether no neighbour is listed yet on any side, as it is for a
    /// variant that was just loaded or made by rotation.
    pub open spec fn bare(self) -> bool {
        self.up.len() == 0 && self.right.len() == 0 && self.down.len() == 0 && self.left.len() == 0
    }

    /// The variants accepted on side `d`.
    pub open spec fn valid(self, d: Direction) -> Seq<usize> {
        match d {
            Direction::Up => self.up,
            Direction::Right => self.right,
            Direction::Down => self.down,
            Direction::Left => self.left,
        }
    }
}

impl View for Tile {
    type V = TileView;

    open spec fn view(&self) -> TileView {
        TileView {
            texture: self.texture,
            edges: self.edges.deep_view(),
            angle: self.angle as int,
            is_rotate: self.is_rotate,
            up: self.up@,
            right: self.right@,
            down: self.down@,
            left: self.left@,
        }
    }
}

impl DeepView for Tile {
    type V = TileView;

    open spec fn deep_view(&self) -> TileView {
        self@
    }
}

/// What is said of a definition that does not have exactly four edges.
pub open spec fn edge_count_message() -> Seq<char> {
    "a tile needs exactly 4 edges"@
}

/// A variant as it is first loaded: unrotated and with no neighbours yet.
pub open spec fn loaded(texture: usize, edges: Seq<Seq<char>>, is_rotate: bool) -> TileView {
    TileView {
        texture,
        edges,
        angle: 0,
        is_rotate,
        up: Seq::empty(),
        right: Seq::empty(),
        down: Seq::empty(),
        left: Seq::empty(),
    }
}

/// Whether variant `j` of `all` may sit on side `d` of a variant with edges
/// `own` that stands at position `current`: `j` is another variant, and its
/// edge facing back mates with `own`'s edge on side `d`.
pub open spec fn is_mate(
    all: Seq<Seq<Seq<char>>>,
    own: Seq<Seq<char>>,
    current: int,
    d: Direction,
) -> spec_fn(usize) -> bool {
    |j: usize| j != current && compatible(all[j as int][d.reversed().index()], own[d.index()])
}

/// The variants of `all` that may sit on side `d`, in ascending order.
pub open spec fn mates(
    all: Seq<Seq<Seq<char>>>,
    own: Seq<Seq<char>>,
    current: int,
    d: Direction,
) -> Seq<usize> {
    universe(all.len()).filter(is_mate(all, own, current, d))
}

/// The list of mates is in ascending order, so it names no variant twice,
/// and it names only variants of `all`.
pub proof fn lemma_mates_ascending(
    all: Seq<Seq<Seq<char>>>,
    own: Seq<Seq<char>>,
    current: int,
    d: Direction,
)
    requires
        all.len() <= usize::MAX,
    ensures
        ascending(mates(all, own, current, d)),
        forall|k: int|
            0 <= k < mates(all, own, current, d).len() ==> (#[trigger] mates(all, own, current, d)[k])
                < all.len(),
{
    lemma_universe_filter_ascending(all.len(), is_mate(all, own, current, d));
}

/// The variant after its neighbours among `all` were added to its four lists.
pub open spec fn analyzed(t: TileView, all: Seq<Seq<Seq<char>>>, current: int) -> TileView {
    TileView {
        up: t.up + mates(all, t.edges, current, Direction::Up),
        right: t.right + mates(all, t.edges, current, Direction::Right),
        down: t.down + mates(all, t.edges, current, Direction::Down),
        left: t.left + mates(all, t.edges, current, Direction::Left),
        ..t
    }
}

/// The variant turned clockwise by `num` quarter turns: the edge that was on
/// side `i - num` (counted around the tile) is now on side `i`.
pub open spec fn rotated(t: TileView, num: int) -> TileView {
    TileView {
        texture: t.texture,
        edges: Seq::new(4, |i: int| t.edges[(i - num) % 4]),
        angle: 90 * num,
        is_rotate: true,
        up: Seq::empty(),
        right: Seq::empty(),
        down: Seq::empty(),
        left: Seq::empty(),
    }
}

/// Turning by `a` and then by `b` quarter turns puts the edges where one
/// turn by `a + b` puts them.
pub proof fn lemma_rotated_twice(t: TileView, a: int, b: int)
    requires
        t.wf(),
    ensures
        rotated(rotated(t, a), b).edges == rotated(t, a + b).edges,
{
}

/// Four quarter turns, one after the other, bring every edge back to the
/// side it started on.
pub proof fn lemma_four_quarter_turns(t: TileView)
    requires
        t.wf(),
    ensures
        rotated(rotated(rotated(rotated(t, 1), 1), 1), 1).edges == t.edges,
{
}

impl Tile {
    /// Makes the variant of one raw definition.
    ///
    /// A definition must have exactly four edges; any other number is
    /// reported as malformed data.
    pub fn load(texture: usize, edges: Vec<String>, is_rotate: bool) -> (r: Result<Tile, MyError>)
        ensures
            edges@.len() == 4 <==> r is Ok,
            r matches Ok(tile) ==> tile@ == loaded(texture, edges.deep_view(), is_rotate),
            r matches Err(e) ==> e matches MyError::Json(m) && m@ == edge_count_message(),
    {
        if edges.len() != 4 {
            return Err(MyError::Json(String::from_str("a tile needs exactly 4 edges")));
        }
        Ok(
            Tile {
                texture,
                edges,
                angle: 0,
                is_rotate,
                up: Vec::new(),
                right: Vec::new(),
                down: Vec::new(),
                left: Vec::new(),
            },
        )
    }

    /// Whether a variant with the edges `other` fits on side `direction` of
    /// this one: its edge facing back must mate with the edge on that side.
    pub fn accepts(&self, other: &Vec<String>, direction: Direction) -> (fits: bool)
        requires
            self@.wf(),
            other@.len() == 4,
        ensures
            fits == compatible(
                other.deep_view()[direction.reversed().index()],
                self@.edges[direction.index()],
            ),
    {
        let facing = direction.opposite().position();
        let own = direction.position();
        compare_edge(other[facing].as_str(), self.edges[own].as_str())
    }

    /// Adds to the four neighbour lists every other variant of the catalog
    /// that fits on that side. `tile_edges` holds the edges of all variants,
    /// and `current_index` is the place of this variant among them.
    pub fn analyze(&mut self, tile_edges: &[Vec<String>], current_index: usize)
        requires
            old(self)@.wf(),
            forall|j: int| 0 <= j < tile_edges@.len() ==> (#[trigger] tile_edges@[j])@.len() == 4,
        ensures
            final(self)@ == analyzed(old(self)@, tile_edges.deep_view(), current_index as int),
    {
        let ghost all = tile_edges.deep_view();
        let ghost own = self@.edges;
        let ghost cur = current_index as int;
        let mut index: usize = 0;
        proof {
            lemma_universe_filter_step(0, is_mate(all, own, cur, Direction::Up));
            lemma_universe_filter_step(0, is_mate(all, own, cur, Direction::Right));
            lemma_universe_filter_step(0, is_mate(all, own, cur, Direction::Down));
            lemma_universe_filter_step(0, is_mate(all, own, cur, Direction::Left));
        }
        while index < tile_edges.len()
            invariant
                index <= tile_edges@.len(),
                all == tile_edges.deep_view(),
                own == old(self)@.edges,
                cur == current_index as int,
                forall|j: int| 0 <= j < tile_edges@.len() ==> (#[trigger] tile_edges@[j])@.len() == 4,
                self@.wf(),
                self@.edges == own,
                self.texture == old(self).texture,
                self.angle == old(self).angle,
                self.is_rotate == old(self).is_rotate,
                self.up@ == old(self).up@ + universe(index as nat).filter(
                    is_mate(all, own, cur, Direction::Up),
                ),
                self.right@ == old(self).right@ + universe(index as nat).filter(
                    is_mate(all, own, cur, Direction::Right),
                ),
                self.down@ == old(self).down@ + universe(index as nat).filter(
                    is_mate(all, own, cur, Direction::Down),
                ),
                self.left@ == old(self).left@ + universe(index as nat).filter(
                    is_mate(all, own, cur, Direction::Left),
                ),
            decreases tile_edges@.len() - index,
        {
            proof {
                lemma_universe_filter_step(index as nat, is_mate(all, own, cur, Direction::Up));
                lemma_universe_filter_step(index as nat, is_mate(all, own, cur, Direction::Right));
                lemma_universe_filter_step(index as nat, is_mate(all, own, cur, Direction::Down));
                lemma_universe_filter_step(index as nat, is_mate(all, own, cur, Direction::Left));
                assert(all[index as int] == tile_edges@[index as int].deep_view());
            }
            if index != current_index {
                let edges = &tile_edges[index];
                if self.accepts(edges, Direction::Up) {
                    self.up.push(index);
                }
                if self.accepts(edges, Direction::Right) {
                    self.right.push(index);
                }
                if self.accepts(edges, Direction::Down) {
                    self.down.push(index);
                }
                if self.accepts(edges, Direction::Left) {
                    self.left.push(index);
                }
            }
            index = index + 1;
        }
    }

    /// A copy of the variant turned clockwise by `num` quarter turns.
    ///
    /// The copy keeps the texture, may itself be rotated, and has no
    /// neighbours yet. Its angle is `num` quarter turns, whatever the angle
    /// of the variant it was made from.
    pub fn rotate(&self, num: i32) -> (tile: Tile)
        requires
            self@.wf(),
        ensures
            tile@ == rotated(self@, num as int),
    {
        let mut new_edges: Vec<String> = Vec::new();
        let mut i: usize = 0;
        while i < 4
            invariant
                i <= 4,
                self@.wf(),
                new_edges@.len() == i,
                forall|k: int| 0 <= k < i ==> (#[trigger] new_edges@[k])@ == self@.edges[(k - num) % 4],
            decreases 4 - i,
        {
            // 4294967296 is a multiple of 4 that lifts the difference above zero.
            let lifted: u64 = (4294967296i64 + i as i64 - num as i64) as u64;
            let new_index: usize = (lifted % 4) as usize;
            new_edges.push(self.edges[new_index].clone());
            i = i + 1;
        }
        let tile = Tile {
            texture: self.texture,
            edges: new_edges,
            angle: 90 * (num as i64),
            is_rotate: true,
            up: Vec::new(),
            right: Vec::new(),
            down: Vec::new(),
            left: Vec::new(),
        };
        assert(tile@.edges =~= rotated(self@, num as int).edges);
        tile
    }

    /// The variants accepted on side `direction`.
    pub fn valid(&self, direction: Direction) -> (r: Vec<usize>)
        ensures
            r@ == self@.valid(direction),
    {
        match direction {
            Direction::Up => self.up.clone(),
            Direction::Right => self.right.clone(),
            Direction::Down => self.down.clone(),
            Direction::Left => self.left.clone(),
        }
    }
}

} // verus!
