//! The board in play: which tiles are still covered, which are flagged, and the
//! reveal cascade.

use vstd::prelude::*;

use crate::bounds::Bounds2;
use crate::coordinates::{
    cell_index, is_neighbor, lemma_cell_index_bounds, lemma_cell_index_injective,
    Coordinates,
};
use crate::count::{count_true, lemma_count_true_all, lemma_count_true_push, lemma_count_true_update};
use crate::error::BoardError;
use crate::events::{BoardCompletedEvent, BombExplosionEvent, TileMarkEvent, TileTriggerEvent};
use crate::tile::Tile;
use crate::tile_map::{lemma_index_in_grid, TileMap};

verus! {

/// Which positions of a row-major grid are still covered.
pub open spec fn cover_mask(covered: Seq<Option<u64>>) -> Seq<bool> {
    Seq::new(covered.len(), |i: int| covered[i] is Some)
}

/// A tile uncovered by an operation: where it is, what it holds and the handle
/// of its cover.
#[derive(Clone, Copy, Debug, PartialEq, Eq, Structural)]
pub struct RevealedTile {
    pub coordinates: Coordinates,
    pub tile: Tile,
    pub handle: u64,
}

/// What an uncover request did: the tiles it uncovered, in order, and whether it
/// set off a bomb or completed the board.
#[derive(Debug)]
pub struct UncoverReport {
    pub revealed: Vec<RevealedTile>,
    pub explosion: Option<BombExplosionEvent>,
    pub completed: Option<BoardCompletedEvent>,
}

/// `e` records the uncovering of a tile that `orig` had covered and `cur` has not.
pub open spec fn records_reveal(orig: Board, cur: Board, e: RevealedTile) -> bool {
    &&& orig.cover(e.coordinates) == Some(e.handle)
    &&& !cur.is_covered(e.coordinates)
    &&& e.tile == orig.tile_at(e.coordinates)
}

/// `d` is among the coordinates of `v`.
pub open spec fn lists(v: Seq<RevealedTile>, d: Coordinates) -> bool {
    exists|k: int| 0 <= k < v.len() && (#[trigger] v[k]).coordinates == d
}

/// `d` was covered in `orig` and is no longer in `cur`.
pub open spec fn newly_revealed(orig: Board, cur: Board, d: Coordinates) -> bool {
    orig.is_covered(d) && !cur.is_covered(d)
}

/// Every tile around `e` that `orig` had covered is uncovered in `cur`.
pub open spec fn surroundings_revealed(orig: Board, cur: Board, e: Coordinates) -> bool {
    forall|d: Coordinates| #[trigger] orig.adjacent(e, d) && orig.is_covered(d) ==> !cur.is_covered(d)
}

/// `path` is a walk on board `b` that the cascade of `start` follows: it begins at
/// `start`, each of its tiles is covered, and each step goes from an `Empty`
/// tile to a tile around it.
pub open spec fn cascade_path(b: Board, start: Coordinates, path: Seq<Coordinates>) -> bool {
    &&& path.len() > 0
    &&& path[0] == start
    &&& forall|i: int| 0 <= i < path.len() ==> b.is_covered(#[trigger] path[i])
    &&& forall|i: int|
        0 <= i < path.len() - 1 ==> b.tile_at(#[trigger] path[i]) is Empty && b.adjacent(
            path[i],
            path[i + 1],
        )
}

/// `d` belongs to the cascade of `start` on board `b`: the connected region of
/// covered `Empty` tiles around `start`, through neighbors, with its border.
pub open spec fn in_cascade(b: Board, start: Coordinates, d: Coordinates) -> bool {
    exists|path: Seq<Coordinates>| #[trigger] cascade_path(b, start, path) && path.last() == d
}

/// One more step from an `Empty` tile of the cascade reaches a covered neighbor.
proof fn lemma_cascade_step(b: Board, start: Coordinates, p: Coordinates, d: Coordinates)
    requires
        in_cascade(b, start, p),
        b.tile_at(p) is Empty,
        b.adjacent(p, d),
        b.is_covered(d),
    ensures
        in_cascade(b, start, d),
{
    let path = choose|path: Seq<Coordinates>| #[trigger] cascade_path(b, start, path) && path.last() == p;
    let next = path.push(d);
    assert(next[next.len() - 2] == p);
    assert forall|i: int| 0 <= i < next.len() implies b.is_covered(#[trigger] next[i]) by {
        if i < path.len() {
            assert(next[i] == path[i]);
        }
    }
    assert forall|i: int|
        0 <= i < next.len() - 1 implies b.tile_at(#[trigger] next[i]) is Empty && b.adjacent(
        next[i],
        next[i + 1],
    ) by {
        if i < path.len() - 1 {
            assert(next[i] == path[i]);
            assert(next[i + 1] == path[i + 1]);
        }
    }
    assert(cascade_path(b, start, next));
}

/// The cascade starts with its own tile, when that is covered.
proof fn lemma_cascade_start(b: Board, start: Coordinates)
    requires
        b.is_covered(start),
    ensures
        in_cascade(b, start, start),
{
    let path = seq![start];
    assert(cascade_path(b, start, path));
}

/// The tiles uncovered between `orig` and `cur` are exactly the cascade of `start`.
pub open spec fn cascade_exact(orig: Board, cur: Board, start: Coordinates) -> bool {
    forall|d: Coordinates| #[trigger] newly_revealed(orig, cur, d) <==> in_cascade(orig, start, d)
}

/// Once the surroundings of every uncovered `Empty` tile are uncovered, each
/// tile of a cascade path from an uncovered start is uncovered.
proof fn lemma_path_revealed(orig: Board, cur: Board, start: Coordinates, path: Seq<Coordinates>, k: int)
    requires
        closed_except(orig, cur, seq![], None),
        cascade_path(orig, start, path),
        newly_revealed(orig, cur, start),
        0 <= k < path.len(),
    ensures
        newly_revealed(orig, cur, path[k]),
    decreases k,
{
    if k > 0 {
        lemma_path_revealed(orig, cur, start, path, k - 1);
        let p = path[k - 1];
        assert(orig.tile_at(p) is Empty && orig.adjacent(p, path[k]));
        assert(orig.is_covered(path[k]));
        assert(!seq![].contains(p));
        assert(surroundings_revealed(orig, cur, p));
    }
}

/// A point less than `n` cells of size `ts` from the origin lies in one of the
/// first `n` cells.
proof fn lemma_quotient_below(d: int, ts: int, n: int)
    requires
        0 <= d < n * ts,
        ts > 0,
    ensures
        0 <= d / ts < n,
{
    vstd::arithmetic::div_mod::lemma_fundamental_div_mod(d, ts);
    vstd::arithmetic::div_mod::lemma_mod_bound(d, ts);
    vstd::arithmetic::div_mod::lemma_div_pos_is_pos(d, ts);
    let q = d / ts;
    let r = d % ts;
    assert(q < n) by (nonlinear_arith)
        requires
            d == ts * q + r,
            0 <= r,
            d < n * ts,
            ts > 0,
    ;
}

/// `path` walks from `start` through `Empty` cells of board `b`, each step to a
/// neighbor.
pub open spec fn empty_path(b: Board, start: Coordinates, path: Seq<Coordinates>) -> bool {
    &&& path.len() > 0
    &&& path[0] == start
    &&& forall|i: int|
        0 <= i < path.len() ==> b.spec_tile_map().contains(#[trigger] path[i]) && b.tile_at(path[i]) is Empty
    &&& forall|i: int| 0 <= i < path.len() - 1 ==> b.adjacent(#[trigger] path[i], path[i + 1])
}

/// `d` lies in the 8-connected region of `Empty` cells that holds `start`.
pub open spec fn empty_region(b: Board, start: Coordinates, d: Coordinates) -> bool {
    exists|path: Seq<Coordinates>| #[trigger] empty_path(b, start, path) && path.last() == d
}

/// `d` lies in the `Empty` region of `start` or on its border.
pub open spec fn region_with_border(b: Board, start: Coordinates, d: Coordinates) -> bool {
    empty_region(b, start, d) || exists|e: Coordinates| #[trigger] empty_region(b, start, e) && b.adjacent(e, d)
}

/// What holds between the board `orig` at the start of an uncover session from
/// `start` and the board `cur` during it.
pub open spec fn session_inv(
    orig: Board,
    cur: Board,
    start: Coordinates,
    stack: Seq<Coordinates>,
    revealed: Seq<RevealedTile>,
) -> bool {
    &&& cur.wf()
    &&& Board::same_frame(&orig, &cur)
    &&& forall|d: Coordinates| cur.is_covered(d) ==> #[trigger] cur.cover(d) == orig.cover(d)
    &&& forall|d: Coordinates| #[trigger] cur.marked(d) == (orig.marked(d) && cur.is_covered(d))
    &&& forall|k: int| 0 <= k < revealed.len() ==> records_reveal(orig, cur, #[trigger] revealed[k])
    &&& forall|d: Coordinates| #[trigger] newly_revealed(orig, cur, d) ==> lists(revealed, d)
    &&& forall|d: Coordinates| #[trigger] newly_revealed(orig, cur, d) ==> in_cascade(orig, start, d)
    &&& forall|d: Coordinates|
        #[trigger] newly_revealed(orig, cur, d) && d != start ==> !(orig.tile_at(d) is Bomb)
    &&& forall|k: int|
        0 <= k < stack.len() ==> newly_revealed(orig, cur, #[trigger] stack[k])
            && orig.tile_at(stack[k]) is Empty
}

/// Every `Empty` tile uncovered since `orig`, other than `skip` and those still on
/// `stack`, has its surroundings uncovered.
pub open spec fn closed_except(
    orig: Board,
    cur: Board,
    stack: Seq<Coordinates>,
    skip: Option<Coordinates>,
) -> bool {
    forall|e: Coordinates|
        #[trigger] newly_revealed(orig, cur, e) && orig.tile_at(e) is Empty && !stack.contains(e)
            && skip != Some(e) ==> surroundings_revealed(orig, cur, e)
}

/// A generated grid in play. Each covered tile carries the handle of the
/// presentation object that hides it; handles are opaque to the board.
pub struct Board {
    tile_map: TileMap,
    bounds: Bounds2,
    /// World units per grid cell.
    tile_size: i64,
    covered: Vec<Option<u64>>,
    marked: Vec<bool>,
    covered_count: usize,
    /// Handle of the presentation object of the whole board.
    entity: u64,
}

impl Board {
    pub closed spec fn spec_tile_map(&self) -> TileMap {
        self.tile_map
    }

    pub closed spec fn spec_bounds(&self) -> Bounds2 {
        self.bounds
    }

    pub closed spec fn spec_tile_size(&self) -> i64 {
        self.tile_size
    }

    pub closed spec fn spec_entity(&self) -> u64 {
        self.entity
    }

    /// Row-major position of `c` in the grid.
    pub open spec fn index(&self, c: Coordinates) -> int {
        cell_index(self.spec_tile_map().spec_width() as int, c.x as int, c.y as int)
    }

    /// The handle of the cover of `c`, while `c` is covered.
    pub closed spec fn cover(&self, c: Coordinates) -> Option<u64> {
        if self.tile_map.contains(c) {
            self.covered@[self.index(c)]
        } else {
            None
        }
    }

    /// `c` carries a flag.
    pub closed spec fn marked(&self, c: Coordinates) -> bool {
        self.tile_map.contains(c) && self.marked@[self.index(c)]
    }

    /// Number of tiles still covered.
    pub closed spec fn num_covered(&self) -> nat {
        self.covered_count as nat
    }

    pub open spec fn is_covered(&self, c: Coordinates) -> bool {
        self.cover(c) is Some
    }

    /// The covered tiles with the handles of their covers.
    pub open spec fn covered_tiles(&self) -> Map<Coordinates, u64> {
        Map::new(|c: Coordinates| self.is_covered(c), |c: Coordinates| self.cover(c)->0)
    }

    /// The flagged tiles.
    pub open spec fn marked_tiles(&self) -> Set<Coordinates> {
        Set::new(|c: Coordinates| self.marked(c))
    }

    /// The tile at `c`.
    pub open spec fn tile_at(&self, c: Coordinates) -> Tile {
        self.spec_tile_map().tile_at(c.x as int, c.y as int)
    }

    /// Neighborhood in this board's grid.
    pub open spec fn adjacent(&self, a: Coordinates, b: Coordinates) -> bool {
        is_neighbor(
            self.spec_tile_map().spec_width() as int,
            self.spec_tile_map().spec_height() as int,
            a,
            b,
        )
    }

    /// The handles of the covered tiles of `s`, in the order of `s`.
    pub open spec fn covered_handles(&self, s: Seq<Coordinates>) -> Seq<u64>
        decreases s.len(),
    {
        if s.len() == 0 {
            Seq::empty()
        } else {
            let rest = self.covered_handles(s.drop_last());
            if self.is_covered(s.last()) {
                rest.push(self.cover(s.last())->0)
            } else {
                rest
            }
        }
    }

    /// There are no more covered handles than tiles.
    pub proof fn lemma_covered_handles_len(&self, s: Seq<Coordinates>)
        ensures
            self.covered_handles(s).len() <= s.len(),
        decreases s.len(),
    {
        if s.len() > 0 {
            self.lemma_covered_handles_len(s.drop_last());
        }
    }

    /// `h` is the handle of the cover of a tile around `c`.
    pub open spec fn covers_around(&self, c: Coordinates, h: u64) -> bool {
        exists|d: Coordinates| self.adjacent(c, d) && #[trigger] self.cover(d) == Some(h)
    }

    /// Every tile covered in `self` was covered in `before`: uncovering is never undone.
    pub open spec fn covers_within(&self, before: Board) -> bool {
        forall|c: Coordinates| #[trigger] self.is_covered(c) ==> before.is_covered(c)
    }

    /// `after` is `before` once the flag of `c` has been toggled: the flag flips
    /// when `c` is covered, and nothing else changes.
    pub open spec fn toggled(before: Board, after: Board, c: Coordinates) -> bool {
        &&& after.wf()
        &&& Board::same_frame(&before, &after)
        &&& after.num_covered() == before.num_covered()
        &&& forall|d: Coordinates| #[trigger] after.cover(d) == before.cover(d)
        &&& forall|d: Coordinates| d != c ==> #[trigger] after.marked(d) == before.marked(d)
        &&& after.marked(c) == if before.is_covered(c) {
            !before.marked(c)
        } else {
            before.marked(c)
        }
    }

    /// The cell of the grid under the world point `(px, py)`: none when the point is
    /// outside the bounds, else `floor((p - origin) / tile_size)`.
    pub open spec fn locate_spec(&self, px: int, py: int) -> Option<Coordinates> {
        let b = self.spec_bounds();
        let ts = self.spec_tile_size() as int;
        if !b.contains_spec(px, py) {
            None
        } else {
            Some(Coordinates { x: ((px - b.x) / ts) as u16, y: ((py - b.y) / ts) as u16 })
        }
    }

    /// The board is solved: only the bombs are still covered.
    pub open spec fn completed(&self) -> bool {
        self.num_covered() == self.spec_tile_map().spec_bomb_count()
    }

    /// A flagged tile is covered, the covered count counts the covered tiles, and
    /// the bounds are the grid's cells laid out at a positive tile size.
    pub closed spec fn wf(&self) -> bool {
        let n = self.tile_map.area();
        &&& self.tile_map.wf()
        &&& self.covered.len() == n
        &&& self.marked.len() == n
        &&& forall|i: int| 0 <= i < n && #[trigger] self.marked@[i] ==> self.covered@[i] is Some
        &&& self.covered_count == count_true(cover_mask(self.covered@))
        &&& Board::geometry_fits(self.tile_map, self.bounds, self.tile_size)
    }

    /// `bounds` spans the cells of `tile_map` at `tile_size` world units per cell.
    pub open spec fn geometry_fits(tile_map: TileMap, bounds: Bounds2, tile_size: i64) -> bool {
        &&& tile_size > 0
        &&& bounds.width == tile_map.spec_width() * tile_size
        &&& bounds.height == tile_map.spec_height() * tile_size
    }

    /// `b` is `a` after an operation that left the grid and the geometry alone.
    pub open spec fn same_frame(a: &Board, b: &Board) -> bool {
        &&& b.spec_tile_map() == a.spec_tile_map()
        &&& b.spec_bounds() == a.spec_bounds()
        &&& b.spec_tile_size() == a.spec_tile_size()
        &&& b.spec_entity() == a.spec_entity()
    }

    /// A flagged tile is always covered.
    pub proof fn lemma_marked_is_covered(&self, c: Coordinates)
        requires
            self.wf(),
            self.marked(c),
        ensures
            self.is_covered(c),
    {
        lemma_cell_index_bounds(
            self.tile_map.spec_width() as int,
            self.tile_map.spec_height() as int,
            c.x as int,
            c.y as int,
        );
    }

    /// The cell at row-major position `i` of a grid `w` cells wide.
    pub open spec fn coord_of(w: int, i: int) -> Coordinates {
        Coordinates { x: (i % w) as u16, y: (i / w) as u16 }
    }

    /// The covered tiles among the first `k` positions of the grid.
    closed spec fn covered_prefix(&self, k: nat) -> Set<Coordinates>
        decreases k,
    {
        if k == 0 {
            Set::empty()
        } else {
            let s = self.covered_prefix((k - 1) as nat);
            if self.covered@[k - 1] is Some {
                s.insert(Board::coord_of(self.tile_map.spec_width() as int, k - 1))
            } else {
                s
            }
        }
    }

    proof fn lemma_covered_prefix(&self, k: nat)
        requires
            self.wf(),
            k <= self.covered.len(),
        ensures
            self.covered_prefix(k).finite(),
            self.covered_prefix(k).len() == count_true(cover_mask(self.covered@).subrange(0, k as int)),
            forall|c: Coordinates|
                #[trigger] self.covered_prefix(k).contains(c) <==> (self.is_covered(c) && self.index(c) < k),
        decreases k,
    {
        let w = self.tile_map.spec_width() as int;
        let h = self.tile_map.spec_height() as int;
        let m = cover_mask(self.covered@);
        if k == 0 {
            assert(m.subrange(0, 0) =~= Seq::<bool>::empty());
            assert forall|c: Coordinates| #[trigger] self.covered_prefix(k).contains(c) <==> (
            self.is_covered(c) && self.index(c) < k) by {
                if self.is_covered(c) {
                    lemma_cell_index_bounds(w, h, c.x as int, c.y as int);
                }
            }
        } else {
            let i = k - 1;
            self.lemma_covered_prefix(i as nat);
            lemma_index_in_grid(w, h, i);
            let c = Board::coord_of(w, i);
            assert(c.x == i % w && c.y == i / w);
            assert(self.tile_map.contains(c));
            assert(self.index(c) == i);
            assert(m.subrange(0, k as int) =~= m.subrange(0, i).push(m[i]));
            lemma_count_true_push(m.subrange(0, i), m[i]);
            assert forall|d: Coordinates| #[trigger] self.covered_prefix(k).contains(d) <==> (
            self.is_covered(d) && self.index(d) < k) by {
                if self.is_covered(d) {
                    lemma_cell_index_bounds(w, h, d.x as int, d.y as int);
                    if self.index(d) == i {
                        lemma_cell_index_injective(w, h, d.x as int, d.y as int, c.x as int, c.y as int);
                    }
                }
                if d == c {
                    assert(self.index(d) == i);
                }
            }
            if self.covered@[i] is Some {
                assert(!self.covered_prefix(i as nat).contains(c));
            }
        }
    }

    /// The covered count is the number of entries of the covered-tiles map.
    pub proof fn lemma_num_covered(&self)
        requires
            self.wf(),
        ensures
            self.covered_tiles().dom().finite(),
            self.num_covered() == self.covered_tiles().dom().len(),
    {
        let n = self.covered.len();
        self.lemma_covered_prefix(n as nat);
        assert(cover_mask(self.covered@).subrange(0, n as int) =~= cover_mask(self.covered@));
        assert forall|c: Coordinates| #[trigger] self.covered_tiles().dom().contains(c) <==> self.covered_prefix(n as nat).contains(c) by {
            if self.is_covered(c) {
                lemma_cell_index_bounds(
                    self.tile_map.spec_width() as int,
                    self.tile_map.spec_height() as int,
                    c.x as int,
                    c.y as int,
                );
            }
        }
        assert(self.covered_tiles().dom() =~= self.covered_prefix(n as nat));
    }

    /// The board is complete exactly when as many tiles are covered as there are
    /// bombs.
    pub proof fn lemma_completed_iff_covered_equals_bombs(&self)
        requires
            self.wf(),
        ensures
            self.completed() <==> self.covered_tiles().dom().len() == self.spec_tile_map().spec_bomb_count(),
    {
        self.lemma_num_covered();
    }

    /// Locating a point does not depend on which tiles are covered or flagged: two
    /// boards with the same grid and geometry give the same answer.
    pub proof fn lemma_locate_stable(a: Board, b: Board, px: int, py: int)
        requires
            Board::same_frame(&a, &b),
        ensures
            a.locate_spec(px, py) == b.locate_spec(px, py),
    {
    }

    /// Uncovering is never undone: over any chain of operations each of which
    /// covers no tile that was uncovered, no tile comes back under cover.
    pub proof fn lemma_covers_within_chain(a: Board, b: Board, c: Board)
        requires
            b.covers_within(a),
            c.covers_within(b),
        ensures
            c.covers_within(a),
    {
    }

    /// Toggling the flag of the same tile twice gives back the flags and covers of
    /// the start.
    pub proof fn lemma_toggle_twice(b0: Board, b1: Board, b2: Board, c: Coordinates)
        requires
            b0.wf(),
            Board::toggled(b0, b1, c),
            Board::toggled(b1, b2, c),
        ensures
            b2.marked_tiles() == b0.marked_tiles(),
            b2.covered_tiles() == b0.covered_tiles(),
            b2.marked(c) == b0.marked(c),
    {
        assert(b1.is_covered(c) == b0.is_covered(c));
        assert(b2.marked_tiles() =~= b0.marked_tiles());
        assert(b2.covered_tiles() =~= b0.covered_tiles());
    }

    /// A covered tile lies in the grid.
    pub proof fn lemma_covered_in_grid(&self, c: Coordinates)
        requires
            self.is_covered(c),
        ensures
            self.spec_tile_map().contains(c),
    {
    }

    /// On a board where every cell is covered, the cascade of an `Empty` tile is the
    /// 8-connected region of `Empty` cells that holds it, plus the cells around that
    /// region; with `uncover`'s `cascade_exact`, these are the tiles it uncovers.
    pub proof fn lemma_cascade_is_region_with_border(b: Board, start: Coordinates, d: Coordinates)
        requires
            forall|c: Coordinates| b.spec_tile_map().contains(c) ==> #[trigger] b.is_covered(c),
            b.spec_tile_map().contains(start),
            b.tile_at(start) is Empty,
        ensures
            in_cascade(b, start, d) <==> region_with_border(b, start, d),
    {
        if in_cascade(b, start, d) {
            let path = choose|path: Seq<Coordinates>| #[trigger] cascade_path(b, start, path) && path.last() == d;
            let k = path.len() - 1;
            let prefix = path.subrange(0, k);
            if k == 0 || b.tile_at(d) is Empty {
                assert forall|i: int| 0 <= i < path.len() implies b.spec_tile_map().contains(#[trigger] path[i])
                    && b.tile_at(path[i]) is Empty by {
                    assert(b.is_covered(path[i]));
                    b.lemma_covered_in_grid(path[i]);
                }
                assert(empty_path(b, start, path));
            } else {
                assert forall|i: int| 0 <= i < prefix.len() implies b.spec_tile_map().contains(#[trigger] prefix[i])
                    && b.tile_at(prefix[i]) is Empty by {
                    assert(prefix[i] == path[i]);
                    assert(b.is_covered(path[i]));
                    b.lemma_covered_in_grid(path[i]);
                }
                assert forall|i: int| 0 <= i < prefix.len() - 1 implies b.adjacent(#[trigger] prefix[i], prefix[i + 1]) by {
                    assert(prefix[i] == path[i]);
                    assert(prefix[i + 1] == path[i + 1]);
                }
                assert(empty_path(b, start, prefix));
                let e = prefix.last();
                assert(e == path[k - 1]);
                assert(b.adjacent(path[k - 1], path[k]));
                assert(empty_region(b, start, e));
            }
        }
        if region_with_border(b, start, d) {
            let e = if empty_region(b, start, d) {
                d
            } else {
                choose|e: Coordinates| #[trigger] empty_region(b, start, e) && b.adjacent(e, d)
            };
            let path = choose|path: Seq<Coordinates>| #[trigger] empty_path(b, start, path) && path.last() == e;
            assert forall|i: int| 0 <= i < path.len() implies b.is_covered(#[trigger] path[i]) by {
                assert(b.spec_tile_map().contains(path[i]));
            }
            assert(cascade_path(b, start, path));
            if e != d {
                assert(b.spec_tile_map().contains(d));
                assert(b.is_covered(d));
                lemma_cascade_step(b, start, e, d);
            }
        }
    }

    /// A board over `tile_map` with every tile covered, by the handle at its
    /// row-major position in `handles`, and none flagged.
    pub fn new(tile_map: TileMap, bounds: Bounds2, tile_size: i64, handles: &Vec<u64>, entity: u64) -> (r: Board)
        requires
            tile_map.wf(),
            handles.len() == tile_map.area(),
            Board::geometry_fits(tile_map, bounds, tile_size),
        ensures
            r.wf(),
            r.spec_tile_map() == tile_map,
            r.spec_bounds() == bounds,
            r.spec_tile_size() == tile_size,
            r.spec_entity() == entity,
            r.num_covered() == tile_map.area(),
            forall|c: Coordinates|
                tile_map.contains(c) ==> #[trigger] r.cover(c) == Some(
                    handles@[cell_index(tile_map.spec_width() as int, c.x as int, c.y as int)],
                ),
            forall|c: Coordinates| !tile_map.contains(c) ==> !(#[trigger] r.is_covered(c)),
            forall|c: Coordinates| !(#[trigger] r.marked(c)),
    {
        let n = handles.len();
        let mut covered: Vec<Option<u64>> = Vec::new();
        let mut i: usize = 0;
        while i < n
            invariant
                n == handles.len(),
                i <= n,
                covered.len() == i,
                forall|j: int| 0 <= j < i ==> #[trigger] covered@[j] == Some(handles@[j]),
            decreases n - i,
        {
            covered.push(Some(handles[i]));
            i = i + 1;
        }
        let marked: Vec<bool> = vec![false; n];
        proof {
            lemma_count_true_all(cover_mask(covered@));
        }
        let r = Board { tile_map, bounds, tile_size, covered, marked, covered_count: n, entity };
        proof {
            assert forall|c: Coordinates| tile_map.contains(c) implies #[trigger] r.cover(c) == Some(
                handles@[cell_index(tile_map.spec_width() as int, c.x as int, c.y as int)],
            ) by {
                lemma_cell_index_bounds(
                    tile_map.spec_width() as int,
                    tile_map.spec_height() as int,
                    c.x as int,
                    c.y as int,
                );
            }
            assert forall|c: Coordinates| !(#[trigger] r.marked(c)) by {
                if tile_map.contains(c) {
                    lemma_cell_index_bounds(
                        tile_map.spec_width() as int,
                        tile_map.spec_height() as int,
                        c.x as int,
                        c.y as int,
                    );
                }
            }
        }
        r
    }

    /// The grid of this board.
    pub fn tile_map(&self) -> (r: &TileMap)
        ensures
            *r == self.spec_tile_map(),
    {
        &self.tile_map
    }

    /// The region of world space that the board covers.
    pub fn bounds(&self) -> (r: Bounds2)
        ensures
            r == self.spec_bounds(),
    {
        self.bounds
    }

    /// World units per grid cell.
    pub fn tile_size(&self) -> (r: i64)
        ensures
            r == self.spec_tile_size(),
    {
        self.tile_size
    }

    /// Handle of the presentation object of the whole board.
    pub fn entity(&self) -> (r: u64)
        ensures
            r == self.spec_entity(),
    {
        self.entity
    }

    /// Row-major position of a cell of the grid.
    fn index_of(&self, c: Coordinates) -> (r: usize)
        requires
            self.wf(),
            self.tile_map.contains(c),
        ensures
            r == self.index(c),
            r < self.covered.len(),
    {
        proof {
            lemma_cell_index_bounds(
                self.tile_map.spec_width() as int,
                self.tile_map.spec_height() as int,
                c.x as int,
                c.y as int,
            );
        }
        let w: usize = self.tile_map.width() as usize;
        let x: usize = c.x as usize;
        let y: usize = c.y as usize;
        y * w + x
    }

    /// Distinct cells have distinct positions.
    proof fn lemma_index_distinct(&self, c: Coordinates, d: Coordinates)
        requires
            self.wf(),
            self.tile_map.contains(c),
            self.tile_map.contains(d),
            c != d,
        ensures
            self.index(c) != self.index(d),
            0 <= self.index(d) < self.covered.len(),
    {
        let w = self.tile_map.spec_width() as int;
        let h = self.tile_map.spec_height() as int;
        lemma_cell_index_bounds(w, h, d.x as int, d.y as int);
        if self.index(c) == self.index(d) {
            lemma_cell_index_injective(w, h, c.x as int, c.y as int, d.x as int, d.y as int);
        }
    }

    /// Whether the tile at `c` is still covered.
    pub fn is_tile_covered(&self, c: Coordinates) -> (r: bool)
        requires
            self.wf(),
        ensures
            r == self.is_covered(c),
    {
        if !self.tile_map.has(c) {
            return false;
        }
        let i = self.index_of(c);
        self.covered[i].is_some()
    }

    /// Whether the tile at `c` carries a flag.
    pub fn is_tile_marked(&self, c: Coordinates) -> (r: bool)
        requires
            self.wf(),
        ensures
            r == self.marked(c),
    {
        if !self.tile_map.has(c) {
            return false;
        }
        let i = self.index_of(c);
        self.marked[i]
    }

    /// Number of tiles still covered.
    pub fn covered_count(&self) -> (r: usize)
        ensures
            r == self.num_covered(),
    {
        self.covered_count
    }

    /// Whether every safe tile has been uncovered.
    pub fn is_completed(&self) -> (r: bool)
        ensures
            r == self.completed(),
    {
        self.tile_map.bomb_count() == self.covered_count
    }

    /// The handle of the cover that a primary action on `c` would take away:
    /// none when `c` is flagged or not covered.
    pub fn tile_to_uncover(&self, c: Coordinates) -> (r: Option<u64>)
        requires
            self.wf(),
        ensures
            r == if self.marked(c) {
                None
            } else {
                self.cover(c)
            },
    {
        if !self.tile_map.has(c) {
            return None;
        }
        let i = self.index_of(c);
        if self.marked[i] {
            None
        } else {
            self.covered[i]
        }
    }

    /// Takes the flag off `c`; returns `c` when it carried one.
    fn unmark_tile(&mut self, c: Coordinates) -> (r: Option<Coordinates>)
        requires
            old(self).wf(),
        ensures
            final(self).wf(),
            Board::same_frame(old(self), final(self)),
            final(self).num_covered() == old(self).num_covered(),
            r == if old(self).marked(c) {
                Some(c)
            } else {
                None
            },
            !final(self).marked(c),
            forall|d: Coordinates| #[trigger] final(self).cover(d) == old(self).cover(d),
            forall|d: Coordinates| d != c ==> #[trigger] final(self).marked(d) == old(self).marked(d),
    {
        if !self.tile_map.has(c) {
            return None;
        }
        let i = self.index_of(c);
        if !self.marked[i] {
            return None;
        }
        let ghost before = *self;
        self.marked.set(i, false);
        proof {
            assert forall|d: Coordinates| d != c implies #[trigger] self.marked(d) == before.marked(d) by {
                if self.tile_map.contains(d) {
                    before.lemma_index_distinct(c, d);
                }
            }
        }
        Some(c)
    }

    /// Takes away the cover of `c` (and its flag, if any); returns the handle of
    /// the cover, or none when `c` was not covered.
    pub fn try_uncover_tile(&mut self, c: Coordinates) -> (r: Option<u64>)
        requires
            old(self).wf(),
        ensures
            final(self).wf(),
            Board::same_frame(old(self), final(self)),
            r == old(self).cover(c),
            final(self).covers_within(*old(self)),
            !final(self).is_covered(c),
            !final(self).marked(c),
            forall|d: Coordinates|
                d != c ==> #[trigger] final(self).cover(d) == old(self).cover(d),
            forall|d: Coordinates|
                d != c ==> #[trigger] final(self).marked(d) == old(self).marked(d),
            final(self).num_covered() == old(self).num_covered() - if old(self).is_covered(c) {
                1int
            } else {
                0int
            },
    {
        if !self.tile_map.has(c) {
            return None;
        }
        let i = self.index_of(c);
        let ghost orig = *self;
        if self.marked[i] {
            self.unmark_tile(c);
        }
        let ghost before = *self;
        assert(before.index(c) == i);
        assert(forall|d: Coordinates| d != c ==> #[trigger] before.marked(d) == orig.marked(d));
        assert(forall|d: Coordinates| #[trigger] before.cover(d) == orig.cover(d));
        match self.covered[i] {
            None => {
                assert(before.cover(c) is None);
                None
            },
            Some(h) => {
                proof {
                    lemma_count_true_update(cover_mask(self.covered@), i as int, false);
                    assert(cover_mask(self.covered@).update(i as int, false) =~= cover_mask(
                        self.covered@.update(i as int, None),
                    ));
                }
                self.covered.set(i, None);
                self.covered_count = self.covered_count - 1;
                proof {
                    assert(self.marked@ == before.marked@);
                    assert forall|d: Coordinates| d != c implies #[trigger] self.marked(d)
                        == before.marked(d) by {}
                    assert forall|d: Coordinates| d != c implies #[trigger] self.cover(d)
                        == before.cover(d) by {
                        if self.tile_map.contains(d) {
                            before.lemma_index_distinct(c, d);
                        }
                    }
                }
                Some(h)
            },
        }
    }

    /// Puts a flag on the covered tile `c`, or takes it away when there is one.
    /// Returns the handle of the cover and whether `c` is now flagged; none, with
    /// nothing changed, when `c` is not covered.
    pub fn try_toggle_mark(&mut self, c: Coordinates) -> (r: Option<(u64, bool)>)
        requires
            old(self).wf(),
        ensures
            Board::toggled(*old(self), *final(self), c),
            final(self).covers_within(*old(self)),
            r == if old(self).is_covered(c) {
                Some((old(self).cover(c)->0, final(self).marked(c)))
            } else {
                None
            },
    {
        if !self.tile_map.has(c) {
            return None;
        }
        let i = self.index_of(c);
        let handle = match self.covered[i] {
            None => {
                return None;
            },
            Some(h) => h,
        };
        if self.marked[i] {
            self.unmark_tile(c);
            Some((handle, false))
        } else {
            let ghost before = *self;
            self.marked.set(i, true);
            proof {
                assert forall|d: Coordinates| d != c implies #[trigger] self.marked(d)
                    == before.marked(d) by {
                    if self.tile_map.contains(d) {
                        before.lemma_index_distinct(c, d);
                    }
                }
                assert forall|j: int|
                    0 <= j < self.tile_map.area() && #[trigger] self.marked@[j] implies self.covered@[j] is Some by {
                    if j != i {
                        assert(before.marked@[j]);
                    }
                }
            }
            Some((handle, true))
        }
    }

    /// Handles a flag request: the same as `try_toggle_mark` on its coordinates.
    pub fn mark(&mut self, event: TileMarkEvent) -> (r: Option<(u64, bool)>)
        requires
            old(self).wf(),
        ensures
            Board::toggled(*old(self), *final(self), event.0),
            final(self).covers_within(*old(self)),
            r == if old(self).is_covered(event.0) {
                Some((old(self).cover(event.0)->0, final(self).marked(event.0)))
            } else {
                None
            },
    {
        self.try_toggle_mark(event.0)
    }

    /// The handles of the covered tiles around `c`.
    pub fn adjacent_covered_tiles(&self, c: Coordinates) -> (r: Vec<u64>)
        requires
            self.wf(),
        ensures
            forall|k: int| 0 <= k < r.len() ==> #[trigger] self.covers_around(c, r@[k]),
            forall|d: Coordinates|
                self.adjacent(c, d) && #[trigger] self.is_covered(d) ==> r@.contains(
                    self.cover(d)->0,
                ),
            r@ == self.covered_handles(self.spec_tile_map().neighbors(c)),
            r.len() <= 8,
    {
        let around = self.tile_map.safe_square_at(c);
        let mut r: Vec<u64> = Vec::new();
        let mut k: usize = 0;
        while k < around.len()
            invariant
                self.wf(),
                k <= around.len(),
                forall|d: Coordinates| #[trigger] around@.contains(d) <==> self.adjacent(c, d),
                forall|j: int| 0 <= j < r.len() ==> #[trigger] self.covers_around(c, r@[j]),
                forall|j: int|
                    0 <= j < k && #[trigger] self.is_covered(around@[j]) ==> r@.contains(
                        self.cover(around@[j])->0,
                    ),
                r@ == self.covered_handles(around@.subrange(0, k as int)),
            decreases around.len() - k,
        {
            let d = around[k];
            assert(around@.contains(d));
            let i = self.index_of(d);
            let ghost before = r@;
            proof {
                assert(around@.subrange(0, k + 1).drop_last() =~= around@.subrange(0, k as int));
                assert(around@.subrange(0, k + 1).last() == d);
            }
            match self.covered[i] {
                Some(h) => {
                    r.push(h);
                    proof {
                        assert(self.cover(d) == Some(h));
                        assert forall|j: int|
                            0 <= j < k + 1 && #[trigger] self.is_covered(around@[j]) implies r@.contains(
                                self.cover(around@[j])->0,
                            ) by {
                            if j < k {
                                let m = choose|m: int|
                                    0 <= m < before.len() && before[m] == self.cover(around@[j])->0;
                                assert(r@[m] == before[m]);
                            } else {
                                assert(r@[before.len() as int] == h);
                            }
                        }
                        assert forall|j: int| 0 <= j < r.len() implies #[trigger] self.covers_around(c, r@[j]) by {
                            if j < before.len() {
                                assert(r@[j] == before[j]);
                                assert(self.covers_around(c, before[j]));
                            } else {
                                assert(self.cover(d) == Some(r@[j]));
                            }
                        }
                    }
                },
                None => {},
            }
            k = k + 1;
        }
        proof {
            assert(around@.subrange(0, around.len() as int) =~= around@);
            self.lemma_covered_handles_len(around@);
            assert forall|d: Coordinates|
                self.adjacent(c, d) && #[trigger] self.is_covered(d) implies r@.contains(
                    self.cover(d)->0,
                ) by {
                assert(around@.contains(d));
                let j = choose|j: int| 0 <= j < around.len() && around@[j] == d;
                assert(self.is_covered(around@[j]));
            }
        }
        r
    }
    /// Uncovers every still-covered tile around the `Empty` tile `p`, records each,
    /// and queues those that are `Empty` in turn.
    fn reveal_around(
        &mut self,
        p: Coordinates,
        stack: &mut Vec<Coordinates>,
        revealed: &mut Vec<RevealedTile>,
        Ghost(orig): Ghost<Board>,
        Ghost(start): Ghost<Coordinates>,
    )
        requires
            session_inv(orig, *old(self), start, old(stack)@, old(revealed)@),
            closed_except(orig, *old(self), old(stack)@, Some(p)),
            newly_revealed(orig, *old(self), p),
            orig.tile_at(p) is Empty,
        ensures
            session_inv(orig, *final(self), start, final(stack)@, final(revealed)@),
            closed_except(orig, *final(self), final(stack)@, None),
            final(self).num_covered() + final(stack).len() <= old(self).num_covered() + old(stack).len(),
            forall|d: Coordinates| #[trigger] final(self).is_covered(d) ==> old(self).is_covered(d),
            final(self).num_covered() + final(revealed).len() == old(self).num_covered() + old(revealed).len(),
    {
        let ghost entry = *self;
        let ghost r0 = self.num_covered() + revealed.len();
        let around = self.tile_map.safe_square_at(p);
        let ghost m0 = self.num_covered() + stack.len();
        let mut k: usize = 0;
        while k < around.len()
            invariant
                session_inv(orig, *self, start, stack@, revealed@),
                closed_except(orig, *self, stack@, Some(p)),
                newly_revealed(orig, *self, p),
                orig.tile_at(p) is Empty,
                k <= around.len(),
                forall|d: Coordinates| #[trigger] around@.contains(d) <==> orig.adjacent(p, d),
                forall|j: int| 0 <= j < k ==> !self.is_covered(#[trigger] around@[j]),
                self.num_covered() + stack.len() <= m0,
                forall|e: Coordinates| #[trigger] self.is_covered(e) ==> entry.is_covered(e),
                self.num_covered() + revealed.len() == r0,
            decreases around.len() - k,
        {
            let d = around[k];
            assert(around@.contains(d));
            let ghost before = *self;
            let ghost stack_before = stack@;
            let ghost revealed_before = revealed@;
            match self.try_uncover_tile(d) {
                None => {
                    proof {
                        if before.marked(d) {
                            before.lemma_marked_is_covered(d);
                        }
                        assert forall|e: Coordinates| #[trigger] self.cover(e) == before.cover(e) by {}
                        assert forall|e: Coordinates| #[trigger] self.marked(e) == before.marked(e) by {}
                        assert forall|e: Coordinates| #[trigger] newly_revealed(orig, *self, e)
                            == newly_revealed(orig, before, e) by {}
                    }
                },
                Some(h) => {
                    let t = self.tile_map.tile(d);
                    revealed.push(RevealedTile { coordinates: d, tile: t, handle: h });
                    if t.is_empty() {
                        stack.push(d);
                    }
                    proof {
                        orig.spec_tile_map().lemma_no_bomb_next_to_empty(p, d);
                        assert(orig.tile_at(d) == t);
                        assert(in_cascade(orig, start, p));
                        assert(before.is_covered(d));
                        assert(before.cover(d) == orig.cover(d));
                        assert(orig.is_covered(d));
                        assert(orig.adjacent(p, d));
                        lemma_cascade_step(orig, start, p, d);
                        assert forall|e: Coordinates| #[trigger] newly_revealed(orig, *self, e) implies in_cascade(orig, start, e) by {
                            if e == d {
                            } else {
                                assert(newly_revealed(orig, before, e));
                            }
                        }
                        if t is Empty {
                            assert(stack@[stack@.len() - 1] == d);
                            assert(stack@.contains(d));
                        }
                        assert forall|e: Coordinates| self.is_covered(e) implies #[trigger] self.cover(e) == orig.cover(e) by {
                            assert(before.cover(e) == self.cover(e));
                        }
                        assert forall|e: Coordinates| #[trigger] self.marked(e) == (orig.marked(e) && self.is_covered(e)) by {
                            if e != d {
                                assert(before.marked(e) == (orig.marked(e) && before.is_covered(e)));
                            }
                        }
                        assert forall|k2: int| 0 <= k2 < revealed.len() implies records_reveal(
                            orig,
                            *self,
                            #[trigger] revealed@[k2],
                        ) by {
                            if k2 < revealed_before.len() {
                                assert(revealed@[k2] == revealed_before[k2]);
                                assert(records_reveal(orig, before, revealed_before[k2]));
                            }
                        }
                        assert forall|e: Coordinates| #[trigger] newly_revealed(orig, *self, e) implies lists(
                            revealed@,
                            e,
                        ) by {
                            if e == d {
                                assert(revealed@[revealed_before.len() as int].coordinates == e);
                            } else {
                                assert(newly_revealed(orig, before, e));
                                let j = choose|j: int|
                                    0 <= j < revealed_before.len() && (#[trigger] revealed_before[j]).coordinates == e;
                                assert(revealed@[j] == revealed_before[j]);
                            }
                        }
                        assert forall|e: Coordinates|
                            #[trigger] newly_revealed(orig, *self, e) && e != start implies !(orig.tile_at(e) is Bomb) by {
                            if e != d {
                                assert(newly_revealed(orig, before, e));
                            }
                        }
                        assert forall|j: int| 0 <= j < stack.len() implies newly_revealed(
                            orig,
                            *self,
                            #[trigger] stack@[j],
                        ) && orig.tile_at(stack@[j]) is Empty by {
                            if j < stack_before.len() {
                                assert(stack@[j] == stack_before[j]);
                                assert(newly_revealed(orig, before, stack_before[j]));
                            }
                        }
                        assert forall|e: Coordinates|
                            #[trigger] newly_revealed(orig, *self, e) && orig.tile_at(e) is Empty
                                && !stack@.contains(e) && Some(p) != Some(e) implies surroundings_revealed(
                            orig,
                            *self,
                            e,
                        ) by {
                            assert(e != d);
                            assert(newly_revealed(orig, before, e));
                            if stack_before.contains(e) {
                                let j = choose|j: int| 0 <= j < stack_before.len() && stack_before[j] == e;
                                assert(stack@[j] == e);
                            }
                            assert(surroundings_revealed(orig, before, e));
                            assert forall|f: Coordinates| #[trigger] orig.adjacent(e, f) && orig.is_covered(f) implies !self.is_covered(f) by {
                                assert(!before.is_covered(f));
                                if f != d {
                                    assert(self.cover(f) == before.cover(f));
                                }
                            }
                        }
                    }
                },
            }
            proof {
                assert forall|e: Coordinates| #[trigger] self.is_covered(e) implies entry.is_covered(e) by {
                    if e != d {
                        assert(self.cover(e) == before.cover(e));
                    }
                    assert(before.is_covered(e));
                }
                assert forall|j: int| 0 <= j < k + 1 implies !self.is_covered(#[trigger] around@[j]) by {
                    if j < k {
                        assert(!before.is_covered(around@[j]));
                    }
                }
            }
            k = k + 1;
        }
        proof {
            assert forall|d: Coordinates| #[trigger] orig.adjacent(p, d) && orig.is_covered(d) implies !self.is_covered(d) by {
                assert(around@.contains(d));
                let j = choose|j: int| 0 <= j < around.len() && around@[j] == d;
                assert(!self.is_covered(around@[j]));
            }
            assert(surroundings_revealed(orig, *self, p));
        }
    }

    /// Uncovers `c` (taking its flag away, if any); when `c` is `Empty`, goes on
    /// through every covered tile around each uncovered `Empty` tile until none is
    /// left. Reports the tiles uncovered, whether `c` was a bomb, and whether the
    /// board is now complete. Does nothing when `c` is not covered.
    pub fn uncover(&mut self, c: Coordinates) -> (r: UncoverReport)
        requires
            old(self).wf(),
        ensures
            session_inv(*old(self), *final(self), c, seq![], r.revealed@),
            closed_except(*old(self), *final(self), seq![], None),
            cascade_exact(*old(self), *final(self), c),
            final(self).covers_within(*old(self)),
            final(self).num_covered() + r.revealed.len() == old(self).num_covered(),
            !old(self).is_covered(c) ==> r.revealed.len() == 0 && forall|d: Coordinates|
                #[trigger] final(self).cover(d) == old(self).cover(d),
            old(self).is_covered(c) ==> !final(self).is_covered(c),
            old(self).is_covered(c) && !(old(self).tile_at(c) is Empty) ==> forall|d: Coordinates|
                d != c ==> #[trigger] final(self).cover(d) == old(self).cover(d),
            r.explosion is Some <==> (old(self).is_covered(c) && old(self).tile_at(c) is Bomb),
            r.completed is Some <==> final(self).completed(),
    {
        let ghost orig = *self;
        let mut revealed: Vec<RevealedTile> = Vec::new();
        let mut stack: Vec<Coordinates> = Vec::new();
        let mut explosion: Option<BombExplosionEvent> = None;
        match self.try_uncover_tile(c) {
            None => {
                proof {
                    if orig.marked(c) {
                        orig.lemma_marked_is_covered(c);
                    }
                    assert forall|e: Coordinates| #[trigger] self.cover(e) == orig.cover(e) by {}
                    assert forall|e: Coordinates| #[trigger] self.marked(e) == (orig.marked(e) && self.is_covered(e)) by {
                        if orig.marked(e) {
                            orig.lemma_marked_is_covered(e);
                        }
                    }
                    assert forall|e: Coordinates| !(#[trigger] newly_revealed(orig, *self, e)) by {}
                }
            },
            Some(h) => {
                let t = self.tile_map.tile(c);
                revealed.push(RevealedTile { coordinates: c, tile: t, handle: h });
                if t.is_bomb() {
                    explosion = Some(BombExplosionEvent);
                } else if t.is_empty() {
                    stack.push(c);
                }
                proof {
                    assert(revealed@[0].coordinates == c);
                    assert(orig.tile_at(c) == t);
                    lemma_cascade_start(orig, c);
                    assert forall|e: Coordinates| self.is_covered(e) implies #[trigger] self.cover(e) == orig.cover(e) by {}
                    assert forall|e: Coordinates| #[trigger] self.marked(e) == (orig.marked(e) && self.is_covered(e)) by {
                        if orig.marked(e) {
                            orig.lemma_marked_is_covered(e);
                        }
                    }
                    assert forall|e: Coordinates| #[trigger] newly_revealed(orig, *self, e) implies e == c by {
                        if e != c {
                            assert(self.cover(e) == orig.cover(e));
                        }
                    }
                    assert forall|e: Coordinates| #[trigger] newly_revealed(orig, *self, e) implies lists(revealed@, e) by {
                        assert(revealed@[0].coordinates == e);
                    }
                    if t is Empty {
                        assert(stack@[0] == c);
                        assert(stack@.contains(c));
                    }
                }
            },
        }
        while stack.len() > 0
            invariant
                session_inv(orig, *self, c, stack@, revealed@),
                closed_except(orig, *self, stack@, None),
                !orig.is_covered(c) ==> revealed.len() == 0 && stack.len() == 0 && forall|d: Coordinates|
                    #[trigger] self.cover(d) == orig.cover(d),
                orig.is_covered(c) ==> !self.is_covered(c),
                orig.is_covered(c) && !(orig.tile_at(c) is Empty) ==> stack.len() == 0 && forall|d: Coordinates|
                    d != c ==> #[trigger] self.cover(d) == orig.cover(d),
                explosion is Some <==> (orig.is_covered(c) && orig.tile_at(c) is Bomb),
                self.num_covered() + revealed.len() == orig.num_covered(),
            decreases self.num_covered() + stack.len(),
        {
            let p = stack[stack.len() - 1];
            let ghost stack_before = stack@;
            stack.pop();
            proof {
                assert(stack_before[stack_before.len() - 1] == p);
                assert forall|e: Coordinates|
                    #[trigger] newly_revealed(orig, *self, e) && orig.tile_at(e) is Empty
                        && !stack@.contains(e) && Some(p) != Some(e) implies surroundings_revealed(
                    orig,
                    *self,
                    e,
                ) by {
                    if stack_before.contains(e) {
                        let j = choose|j: int| 0 <= j < stack_before.len() && stack_before[j] == e;
                        assert(stack@[j] == e);
                    }
                }
                assert forall|j: int| 0 <= j < stack.len() implies newly_revealed(
                    orig,
                    *self,
                    #[trigger] stack@[j],
                ) && orig.tile_at(stack@[j]) is Empty by {
                    assert(stack@[j] == stack_before[j]);
                }
            }
            self.reveal_around(p, &mut stack, &mut revealed, Ghost(orig), Ghost(c));
        }
        let completed = if self.is_completed() {
            Some(BoardCompletedEvent)
        } else {
            None
        };
        proof {
            assert(stack@ =~= seq![]);
            assert forall|d: Coordinates| #[trigger] newly_revealed(orig, *self, d) <==> in_cascade(orig, c, d) by {
                if in_cascade(orig, c, d) {
                    let path = choose|path: Seq<Coordinates>| #[trigger] cascade_path(orig, c, path) && path.last() == d;
                    assert(orig.is_covered(path[0]));
                    lemma_path_revealed(orig, *self, c, path, path.len() - 1);
                }
            }
        }
        UncoverReport { revealed, explosion, completed }
    }

    /// Handles a primary action on a tile: uncovers it as `uncover` does, unless it
    /// is flagged or not covered, in which case nothing changes and none is returned.
    pub fn trigger(&mut self, event: TileTriggerEvent) -> (r: Option<UncoverReport>)
        requires
            old(self).wf(),
        ensures
            final(self).wf(),
            final(self).covers_within(*old(self)),
            old(self).marked(event.0) || !old(self).is_covered(event.0) ==> r is None && *final(self) == *old(self),
            !old(self).marked(event.0) && old(self).is_covered(event.0) ==> r is Some && {
                let rep = r->0;
                &&& session_inv(*old(self), *final(self), event.0, seq![], rep.revealed@)
                &&& closed_except(*old(self), *final(self), seq![], None)
                &&& cascade_exact(*old(self), *final(self), event.0)
                &&& !final(self).is_covered(event.0)
                &&& (!(old(self).tile_at(event.0) is Empty) ==> forall|d: Coordinates|
                    d != event.0 ==> #[trigger] final(self).cover(d) == old(self).cover(d))
                &&& (rep.explosion is Some <==> old(self).tile_at(event.0) is Bomb)
                &&& (rep.completed is Some <==> final(self).completed())
            },
    {
        match self.tile_to_uncover(event.0) {
            None => None,
            Some(_) => Some(self.uncover(event.0)),
        }
    }
    /// The cell of the grid under the world point `(px, py)`.
    pub fn locate(&self, px: i64, py: i64) -> (r: Option<Coordinates>)
        requires
            self.wf(),
        ensures
            r == self.locate_spec(px as int, py as int),
            r matches Some(c) ==> self.spec_tile_map().contains(c),
    {
        if !self.bounds.is_bounds(px, py) {
            return None;
        }
        let dx: u64 = (px as i128 - self.bounds.x as i128) as u64;
        let dy: u64 = (py as i128 - self.bounds.y as i128) as u64;
        let ts: u64 = self.tile_size as u64;
        let cx: u64 = dx / ts;
        let cy: u64 = dy / ts;
        proof {
            lemma_quotient_below(dx as int, ts as int, self.tile_map.spec_width() as int);
            lemma_quotient_below(dy as int, ts as int, self.tile_map.spec_height() as int);
        }
        Some(Coordinates { x: cx as u16, y: cy as u16 })
    }

    /// The cell under the cursor at `(cursor_x, cursor_y)`, in pixels from the
    /// top-left corner of a window of `window_width` x `window_height` pixels whose
    /// center is the world origin and whose vertical axis points down.
    pub fn mouse_position(&self, window_width: u32, window_height: u32, cursor_x: u32, cursor_y: u32) -> (r: Option<Coordinates>)
        requires
            self.wf(),
        ensures
            r == self.locate_spec(
                cursor_x - window_width / 2,
                window_height / 2 - cursor_y,
            ),
    {
        let px: i64 = cursor_x as i64 - (window_width / 2) as i64;
        let py: i64 = (window_height / 2) as i64 - cursor_y as i64;
        self.locate(px, py)
    }

    /// Opens the game: with `safe_start`, uncovers the first `Empty` tile in
    /// row-major order (an error when there is none); otherwise does nothing.
    pub fn start(&mut self, safe_start: bool) -> (r: Result<Option<UncoverReport>, BoardError>)
        requires
            old(self).wf(),
        ensures
            final(self).wf(),
            final(self).covers_within(*old(self)),
            !safe_start ==> (r matches Ok(None) && *final(self) == *old(self)),
            safe_start ==> !(r matches Ok(None)),
            safe_start && (exists|c: Coordinates|
                old(self).spec_tile_map().contains(c) && #[trigger] old(self).tile_at(c) is Empty)
                ==> r matches Ok(Some(_)),
            safe_start ==> (r == Err::<Option<UncoverReport>, BoardError>(BoardError::NoSafeStart)
                <==> forall|c: Coordinates|
                old(self).spec_tile_map().contains(c) ==> !(#[trigger] old(self).tile_at(c) is Empty)),
            r is Err ==> *final(self) == *old(self),
            r matches Ok(Some(rep)) ==> exists|c: Coordinates|
                #[trigger] old(self).spec_tile_map().is_first_empty(c) && {
                    &&& session_inv(*old(self), *final(self), c, seq![], rep.revealed@)
                    &&& closed_except(*old(self), *final(self), seq![], None)
                    &&& cascade_exact(*old(self), *final(self), c)
                    &&& (old(self).is_covered(c) ==> !final(self).is_covered(c))
                    &&& final(self).num_covered() + rep.revealed.len() == old(self).num_covered()
                    &&& rep.explosion is None
                    &&& (rep.completed is Some <==> final(self).completed())
                },
    {
        if !safe_start {
            return Ok(None);
        }
        match self.tile_map.first_empty() {
            None => {
                proof {
                    assert forall|c: Coordinates|
                        self.spec_tile_map().contains(c) implies !(#[trigger] self.tile_at(c) is Empty) by {
                        assert(!(self.spec_tile_map().tile_at(c.x as int, c.y as int) is Empty));
                    }
                }
                Err(BoardError::NoSafeStart)
            },
            Some(c) => {
                let ghost orig = *self;
                let rep = self.uncover(c);
                proof {
                    assert(orig.tile_at(c) is Empty);
                    assert(orig.spec_tile_map().is_first_empty(c));
                }
                Ok(Some(rep))
            },
        }
    }
}

} // verus!
