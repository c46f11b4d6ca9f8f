//! The grid of tiles: where the bombs are and how many surround each safe cell.

use vstd::prelude::*;

use crate::coordinates::{
    cell_index, in_grid, is_neighbor, lemma_cell_index_bounds, lemma_cell_index_injective,
    lemma_cell_of_index, Coordinates,
};
use crate::count::{
    count_true, lemma_count_true_le, lemma_count_true_none, lemma_count_true_push,
    lemma_count_true_update,
};
use crate::error::BoardError;
use crate::tile::{classify, Tile};

verus! {

/// The cell `(x, y)` of a `w` x `h` grid is set in the row-major mask `m`;
/// cells outside the grid are never set.
pub open spec fn bomb_in(m: Seq<bool>, w: int, h: int, x: int, y: int) -> bool {
    in_grid(w, h, x, y) && m[cell_index(w, x, y)]
}

pub open spec fn one_if(b: bool) -> int {
    if b {
        1
    } else {
        0
    }
}

/// Number of bombs among the up-to-eight cells around `(x, y)`.
pub open spec fn adjacent_bombs(m: Seq<bool>, w: int, h: int, x: int, y: int) -> int {
    one_if(bomb_in(m, w, h, x - 1, y - 1)) + one_if(bomb_in(m, w, h, x, y - 1))
        + one_if(bomb_in(m, w, h, x + 1, y - 1)) + one_if(bomb_in(m, w, h, x - 1, y))
        + one_if(bomb_in(m, w, h, x + 1, y)) + one_if(bomb_in(m, w, h, x - 1, y + 1))
        + one_if(bomb_in(m, w, h, x, y + 1)) + one_if(bomb_in(m, w, h, x + 1, y + 1))
}

/// Which cells of a row-major grid hold a bomb.
pub open spec fn bomb_mask(cells: Seq<Tile>) -> Seq<bool> {
    Seq::new(cells.len(), |i: int| cells[i] is Bomb)
}

/// The tile that the cell `(x, y)` must hold, given the bombs of the grid.
pub open spec fn expected_tile(m: Seq<bool>, w: int, h: int, x: int, y: int) -> Tile {
    if m[cell_index(w, x, y)] {
        Tile::Bomb
    } else {
        classify(adjacent_bombs(m, w, h, x, y))
    }
}

/// The tile expected at row-major position `i`.
pub open spec fn expected_at(m: Seq<bool>, w: int, h: int, i: int) -> Tile {
    expected_tile(m, w, h, i % w, i / w)
}

/// A position of a `w` x `h` grid is the position of a cell of it.
pub proof fn lemma_index_in_grid(w: int, h: int, i: int)
    requires
        0 < w,
        0 <= i < w * h,
    ensures
        in_grid(w, h, i % w, i / w),
        cell_index(w, i % w, i / w) == i,
{
    vstd::arithmetic::div_mod::lemma_fundamental_div_mod(i, w);
    vstd::arithmetic::div_mod::lemma_mod_bound(i, w);
    vstd::arithmetic::div_mod::lemma_div_pos_is_pos(i, w);
    let q = i / w;
    let r = i % w;
    assert(q < h) by (nonlinear_arith)
        requires
            i == w * q + r,
            0 <= r,
            i < w * h,
            0 < w,
    ;
    assert(q * w == w * q) by (nonlinear_arith);
}

/// A width x height grid of tiles, stored row by row.
pub struct TileMap {
    width: u16,
    height: u16,
    bomb_count: usize,
    map: Vec<Tile>,
}

/// Relies on rand's `Rng::gen_range` on `thread_rng()`: a number drawn from `0..bound`
/// (it panics on an empty range, which `requires` leaves out).
#[verifier::external_body]
fn random_below(bound: usize) -> (r: usize)
    requires
        bound > 0,
    ensures
        r < bound,
{
    rand::Rng::gen_range(&mut rand::thread_rng(), 0..bound)
}

/// Whether the cell `(x + dx - 1, y + dy - 1)` is set in `mask`.
fn mask_at(mask: &Vec<bool>, w: u16, h: u16, x: u16, y: u16, dx: u16, dy: u16) -> (r: bool)
    requires
        mask.len() == w * h,
        dx <= 2,
        dy <= 2,
    ensures
        r == bomb_in(mask@, w as int, h as int, x + dx - 1, y + dy - 1),
{
    let xx: usize = x as usize + dx as usize;
    let yy: usize = y as usize + dy as usize;
    if xx == 0 || yy == 0 {
        return false;
    }
    let xx: usize = xx - 1;
    let yy: usize = yy - 1;
    if xx >= w as usize || yy >= h as usize {
        return false;
    }
    proof {
        lemma_cell_index_bounds(w as int, h as int, xx as int, yy as int);
    }
    mask[yy * w as usize + xx]
}

/// Number of set cells among the neighbors of `(x, y)`.
fn count_adjacent(mask: &Vec<bool>, w: u16, h: u16, x: u16, y: u16) -> (r: u8)
    requires
        mask.len() == w * h,
    ensures
        r == adjacent_bombs(mask@, w as int, h as int, x as int, y as int),
{
    let mut n: u8 = 0;
    if mask_at(mask, w, h, x, y, 0, 0) {
        n = n + 1;
    }
    if mask_at(mask, w, h, x, y, 1, 0) {
        n = n + 1;
    }
    if mask_at(mask, w, h, x, y, 2, 0) {
        n = n + 1;
    }
    if mask_at(mask, w, h, x, y, 0, 1) {
        n = n + 1;
    }
    if mask_at(mask, w, h, x, y, 2, 1) {
        n = n + 1;
    }
    if mask_at(mask, w, h, x, y, 0, 2) {
        n = n + 1;
    }
    if mask_at(mask, w, h, x, y, 1, 2) {
        n = n + 1;
    }
    if mask_at(mask, w, h, x, y, 2, 2) {
        n = n + 1;
    }
    n
}

/// The tile that the cell `(x, y)` holds when the bombs are the cells set in `mask`.
fn tile_for(mask: &Vec<bool>, w: u16, h: u16, x: u16, y: u16) -> (t: Tile)
    requires
        mask.len() == w * h,
        x < w,
        y < h,
    ensures
        t == expected_tile(mask@, w as int, h as int, x as int, y as int),
{
    proof {
        lemma_cell_index_bounds(w as int, h as int, x as int, y as int);
    }
    if mask[y as usize * w as usize + x as usize] {
        Tile::Bomb
    } else {
        let n = count_adjacent(mask, w, h, x, y);
        if n == 0 {
            Tile::Empty
        } else {
            Tile::BombNeighbor(n)
        }
    }
}

/// The cell `(c.x + dx - 1, c.y + dy - 1)`, as coordinates.
pub open spec fn offset(c: Coordinates, dx: int, dy: int) -> Coordinates {
    Coordinates { x: (c.x + dx - 1) as u16, y: (c.y + dy - 1) as u16 }
}

/// Number of cells of a `w` x `h` grid.
fn grid_area(w: u16, h: u16) -> (n: usize)
    ensures
        n == w * h,
{
    assert(w * h <= 0xffff_ffff) by (nonlinear_arith)
        requires
            w <= 0xffff,
            h <= 0xffff,
    ;
    let n: u32 = w as u32 * h as u32;
    n as usize
}

/// Cells of the grid sit inside the grid's row-major storage.
proof fn lemma_bomb_in_index(w: int, h: int, x: int, y: int)
    ensures
        in_grid(w, h, x, y) ==> 0 <= cell_index(w, x, y) < w * h,
{
    if in_grid(w, h, x, y) {
        lemma_cell_index_bounds(w, h, x, y);
    }
}

/// With no cell set, no cell has a bomb around it.
proof fn lemma_adjacent_none(m: Seq<bool>, w: int, h: int, x: int, y: int)
    requires
        m.len() == w * h,
        forall|i: int| 0 <= i < m.len() ==> !m[i],
    ensures
        adjacent_bombs(m, w, h, x, y) == 0,
{
    lemma_bomb_in_index(w, h, x - 1, y - 1);
    lemma_bomb_in_index(w, h, x, y - 1);
    lemma_bomb_in_index(w, h, x + 1, y - 1);
    lemma_bomb_in_index(w, h, x - 1, y);
    lemma_bomb_in_index(w, h, x + 1, y);
    lemma_bomb_in_index(w, h, x - 1, y + 1);
    lemma_bomb_in_index(w, h, x, y + 1);
    lemma_bomb_in_index(w, h, x + 1, y + 1);
}

/// Position of `d` in the row-major scan of the 3 x 3 square centered on `c`.
pub open spec fn offset_key(c: Coordinates, d: Coordinates) -> int {
    (d.y - c.y + 1) * 3 + (d.x - c.x + 1)
}

/// `s` followed by the cell `(c.x + dx - 1, c.y + dy - 1)` when it lies in the grid.
pub open spec fn push_if_in(s: Seq<Coordinates>, w: int, h: int, c: Coordinates, dx: int, dy: int) -> Seq<Coordinates> {
    if in_grid(w, h, c.x + dx - 1, c.y + dy - 1) {
        s.push(offset(c, dx, dy))
    } else {
        s
    }
}

/// The cells around `c` that lie in a `w` x `h` grid, scanned row by row
/// (`dy`, then `dx`, in `-1, 0, 1`), `c` itself left out.
pub open spec fn neighbor_seq(w: int, h: int, c: Coordinates) -> Seq<Coordinates> {
    let s0 = push_if_in(Seq::empty(), w, h, c, 0, 0);
    let s1 = push_if_in(s0, w, h, c, 1, 0);
    let s2 = push_if_in(s1, w, h, c, 2, 0);
    let s3 = push_if_in(s2, w, h, c, 0, 1);
    let s4 = push_if_in(s3, w, h, c, 2, 1);
    let s5 = push_if_in(s4, w, h, c, 0, 2);
    let s6 = push_if_in(s5, w, h, c, 1, 2);
    push_if_in(s6, w, h, c, 2, 2)
}

/// The cells of `s` come in strictly increasing row-major order around `c`.
pub open spec fn scan_ordered(c: Coordinates, s: Seq<Coordinates>) -> bool {
    forall|i: int, j: int| 0 <= i < j < s.len() ==> offset_key(c, #[trigger] s[i]) < offset_key(c, #[trigger] s[j])
}

/// Appends the cell `(c.x + dx - 1, c.y + dy - 1)` to `v` when it lies in the grid.
fn push_neighbor(v: &mut Vec<Coordinates>, w: u16, h: u16, c: Coordinates, dx: u16, dy: u16)
    requires
        dx <= 2,
        dy <= 2,
        !(dx == 1 && dy == 1),
        scan_ordered(c, old(v)@),
        forall|i: int| 0 <= i < old(v).len() ==> offset_key(c, #[trigger] old(v)@[i]) < dy * 3 + dx,
    ensures
        final(v)@ == push_if_in(old(v)@, w as int, h as int, c, dx as int, dy as int),
        scan_ordered(c, final(v)@),
        forall|i: int| 0 <= i < final(v).len() ==> offset_key(c, #[trigger] final(v)@[i]) <= dy * 3 + dx,
        final(v).len() <= old(v).len() + 1,
        forall|d: Coordinates| #[trigger]
            final(v)@.contains(d) <==> (old(v)@.contains(d) || (in_grid(
                w as int,
                h as int,
                c.x + dx - 1,
                c.y + dy - 1,
            ) && d == offset(c, dx as int, dy as int))),
{
    let ghost s = v@;
    let xx: u32 = c.x as u32 + dx as u32;
    let yy: u32 = c.y as u32 + dy as u32;
    if xx >= 1 && yy >= 1 && xx - 1 < w as u32 && yy - 1 < h as u32 {
        let d = Coordinates { x: (xx - 1) as u16, y: (yy - 1) as u16 };
        v.push(d);
        proof {
            assert(d == offset(c, dx as int, dy as int));
            assert(offset_key(c, d) == dy * 3 + dx);
            assert forall|e: Coordinates| #[trigger]
                v@.contains(e) <==> (s.contains(e) || e == d) by {
                if s.contains(e) {
                    let j = choose|j: int| 0 <= j < s.len() && s[j] == e;
                    assert(v@[j] == e);
                }
                if e == d {
                    assert(v@[s.len() as int] == e);
                }
            }
            assert forall|i: int, j: int| 0 <= i < j < v.len() implies offset_key(c, #[trigger] v@[i]) < offset_key(c, #[trigger] v@[j]) by {
                assert(v@[i] == s[i]);
                if j < s.len() {
                    assert(v@[j] == s[j]);
                }
            }
            assert forall|i: int| 0 <= i < v.len() implies offset_key(c, #[trigger] v@[i]) <= dy * 3 + dx by {
                if i < s.len() {
                    assert(v@[i] == s[i]);
                }
            }
        }
    }
}

impl TileMap {
    pub closed spec fn spec_width(&self) -> u16 {
        self.width
    }

    pub closed spec fn spec_height(&self) -> u16 {
        self.height
    }

    /// The tiles, row by row.
    pub closed spec fn cells(&self) -> Seq<Tile> {
        self.map@
    }

    pub closed spec fn spec_bomb_count(&self) -> nat {
        self.bomb_count as nat
    }

    /// The tile at `(x, y)`.
    pub open spec fn tile_at(&self, x: int, y: int) -> Tile {
        self.cells()[cell_index(self.spec_width() as int, x, y)]
    }

    /// Which cells hold a bomb, row by row.
    pub open spec fn bombs(&self) -> Seq<bool> {
        bomb_mask(self.cells())
    }

    /// Number of cells of the grid.
    pub open spec fn area(&self) -> int {
        self.spec_width() * self.spec_height()
    }

    pub open spec fn contains(&self, c: Coordinates) -> bool {
        in_grid(self.spec_width() as int, self.spec_height() as int, c.x as int, c.y as int)
    }

    /// Number of bombs among the neighbors of `(x, y)`.
    pub open spec fn adjacent_bomb_count(&self, x: int, y: int) -> int {
        adjacent_bombs(self.bombs(), self.spec_width() as int, self.spec_height() as int, x, y)
    }

    /// The map is a non-empty grid whose bomb count is the number of `Bomb` cells and
    /// whose every safe cell holds the number of bombs around it.
    pub open spec fn wf(&self) -> bool {
        let w = self.spec_width() as int;
        let h = self.spec_height() as int;
        &&& 0 < w
        &&& 0 < h
        &&& self.cells().len() == w * h
        &&& self.spec_bomb_count() == count_true(self.bombs())
        &&& forall|x: int, y: int|
            in_grid(w, h, x, y) ==> #[trigger] self.tile_at(x, y) == expected_tile(
                self.bombs(),
                w,
                h,
                x,
                y,
            )
    }

    /// The map whose bombs are the cells set in `mask`, with every other cell
    /// classified by the bombs around it.
    pub fn from_mask(width: u16, height: u16, mask: &Vec<bool>) -> (r: TileMap)
        requires
            width > 0,
            height > 0,
            mask.len() == width * height,
        ensures
            r.wf(),
            r.spec_width() == width,
            r.spec_height() == height,
            r.bombs() == mask@,
    {
        let w = width;
        let h = height;
        let mut map: Vec<Tile> = Vec::new();
        let mut count: usize = 0;
        let mut y: u16 = 0;
        while y < h
            invariant
                0 < w,
                0 < h,
                mask.len() == w * h,
                y <= h,
                map.len() == y * w,
                map.len() <= mask.len(),
                count == count_true(mask@.subrange(0, map.len() as int)),
                forall|i: int|
                    0 <= i < map.len() ==> #[trigger] map@[i] == expected_at(
                        mask@,
                        w as int,
                        h as int,
                        i,
                    ),
            decreases h - y,
        {
            let mut x: u16 = 0;
            assert(y * w + 0 == y * w);
            while x < w
                invariant
                    0 < w,
                    0 < h,
                    mask.len() == w * h,
                    y < h,
                    x <= w,
                    map.len() == y * w + x,
                    map.len() <= mask.len(),
                    count == count_true(mask@.subrange(0, map.len() as int)),
                    forall|i: int|
                        0 <= i < map.len() ==> #[trigger] map@[i] == expected_at(
                            mask@,
                            w as int,
                            h as int,
                            i,
                        ),
                decreases w - x,
            {
                proof {
                    lemma_cell_index_bounds(w as int, h as int, x as int, y as int);
                    lemma_cell_of_index(w as int, x as int, y as int);
                }
                let i: usize = y as usize * w as usize + x as usize;
                let bomb = mask[i];
                let tile = tile_for(mask, w, h, x, y);
                map.push(tile);
                proof {
                    lemma_count_true_le(mask@.subrange(0, i as int));
                }
                if bomb {
                    count = count + 1;
                }
                proof {
                    assert(mask@.subrange(0, i + 1) =~= mask@.subrange(0, i as int).push(mask@[i as int]));
                    lemma_count_true_push(mask@.subrange(0, i as int), mask@[i as int]);
                }
                x = x + 1;
            }
            proof {
                assert((y + 1) * w == y * w + w) by (nonlinear_arith);
                assert((y + 1) * w <= w * h) by (nonlinear_arith)
                    requires
                        y + 1 <= h,
                        0 < w,
                ;
            }
            y = y + 1;
        }
        assert(map@.len() == w * h) by {
            assert(h * w == w * h) by (nonlinear_arith);
        }
        assert(mask@.subrange(0, map.len() as int) =~= mask@);
        let r = TileMap { width: w, height: h, bomb_count: count, map };
        assert(r.bombs() =~= mask@) by {
            assert forall|i: int| 0 <= i < mask.len() implies r.bombs()[i] == mask@[i] by {
                lemma_index_in_grid(w as int, h as int, i);
            }
        }
        assert forall|x: int, y: int| in_grid(w as int, h as int, x, y) implies #[trigger] r.tile_at(x, y)
            == expected_tile(r.bombs(), w as int, h as int, x, y) by {
            lemma_cell_index_bounds(w as int, h as int, x, y);
            lemma_cell_of_index(w as int, x, y);
            assert(r.map@[cell_index(w as int, x, y)] == expected_at(mask@, w as int, h as int, cell_index(w as int, x, y)));
        }
        r
    }
    /// No bomb lies next to an `Empty` cell.
    pub proof fn lemma_no_bomb_next_to_empty(&self, a: Coordinates, b: Coordinates)
        requires
            self.wf(),
            self.contains(a),
            self.tile_at(a.x as int, a.y as int) is Empty,
            is_neighbor(self.spec_width() as int, self.spec_height() as int, a, b),
        ensures
            !(self.tile_at(b.x as int, b.y as int) is Bomb),
    {
        let w = self.spec_width() as int;
        let h = self.spec_height() as int;
        let m = self.bombs();
        let (ax, ay, bx, by) = (a.x as int, a.y as int, b.x as int, b.y as int);
        assert(self.tile_at(ax, ay) == expected_tile(m, w, h, ax, ay));
        assert(adjacent_bombs(m, w, h, ax, ay) == 0);
        lemma_cell_index_bounds(w, h, bx, by);
        assert(m[cell_index(w, bx, by)] == (self.tile_at(bx, by) is Bomb));
        if bx == ax - 1 && by == ay - 1 {
            assert(!bomb_in(m, w, h, ax - 1, ay - 1));
        } else if bx == ax && by == ay - 1 {
            assert(!bomb_in(m, w, h, ax, ay - 1));
        } else if bx == ax + 1 && by == ay - 1 {
            assert(!bomb_in(m, w, h, ax + 1, ay - 1));
        } else if bx == ax - 1 && by == ay {
            assert(!bomb_in(m, w, h, ax - 1, ay));
        } else if bx == ax + 1 && by == ay {
            assert(!bomb_in(m, w, h, ax + 1, ay));
        } else if bx == ax - 1 && by == ay + 1 {
            assert(!bomb_in(m, w, h, ax - 1, ay + 1));
        } else if bx == ax && by == ay + 1 {
            assert(!bomb_in(m, w, h, ax, ay + 1));
        } else {
            assert(!bomb_in(m, w, h, ax + 1, ay + 1));
        }
    }

    /// An all-`Empty` grid of `width` x `height` cells, without bombs.
    pub fn empty(width: u16, height: u16) -> (r: TileMap)
        requires
            width > 0,
            height > 0,
        ensures
            r.wf(),
            r.spec_width() == width,
            r.spec_height() == height,
            r.spec_bomb_count() == 0,
            forall|x: int, y: int|
                in_grid(width as int, height as int, x, y) ==> #[trigger] r.tile_at(x, y)
                    == Tile::Empty,
    {
        let n: usize = grid_area(width, height);
        let mask: Vec<bool> = vec![false; n];
        let r = TileMap::from_mask(width, height, &mask);
        proof {
            lemma_count_true_none(mask@);
            assert forall|x: int, y: int|
                in_grid(width as int, height as int, x, y) implies #[trigger] r.tile_at(x, y)
                    == Tile::Empty by {
                lemma_cell_index_bounds(width as int, height as int, x, y);
                lemma_adjacent_none(mask@, width as int, height as int, x, y);
            }
        }
        r
    }

    /// The grid whose bombs are exactly the cells listed in `bombs` (a cell listed
    /// twice holds one bomb); every other cell holds the number of bombs around it.
    pub fn with_bombs(width: u16, height: u16, bombs: &Vec<Coordinates>) -> (r: TileMap)
        requires
            width > 0,
            height > 0,
            forall|k: int|
                0 <= k < bombs.len() ==> in_grid(
                    width as int,
                    height as int,
                    bombs[k].x as int,
                    bombs[k].y as int,
                ),
        ensures
            r.wf(),
            r.spec_width() == width,
            r.spec_height() == height,
            forall|x: int, y: int|
                in_grid(width as int, height as int, x, y) ==> (#[trigger] r.tile_at(x, y) is Bomb
                    <==> bombs@.contains(Coordinates { x: x as u16, y: y as u16 })),
    {
        let n: usize = grid_area(width, height);
        let mut mask: Vec<bool> = vec![false; n];
        let mut k: usize = 0;
        assert forall|x: int, y: int|
            in_grid(width as int, height as int, x, y) implies (#[trigger] mask@[cell_index(
                width as int,
                x,
                y,
            )] <==> bombs@.subrange(0, 0).contains(Coordinates { x: x as u16, y: y as u16 })) by {
            lemma_cell_index_bounds(width as int, height as int, x, y);
        }
        while k < bombs.len()
            invariant
                mask.len() == width * height,
                k <= bombs.len(),
                forall|j: int|
                    0 <= j < bombs.len() ==> in_grid(
                        width as int,
                        height as int,
                        bombs[j].x as int,
                        bombs[j].y as int,
                    ),
                forall|x: int, y: int|
                    in_grid(width as int, height as int, x, y) ==> (#[trigger] mask@[cell_index(
                        width as int,
                        x,
                        y,
                    )] <==> bombs@.subrange(0, k as int).contains(
                        Coordinates { x: x as u16, y: y as u16 },
                    )),
            decreases bombs.len() - k,
        {
            let b = bombs[k];
            proof {
                lemma_cell_index_bounds(width as int, height as int, b.x as int, b.y as int);
            }
            mask.set(b.y as usize * width as usize + b.x as usize, true);
            proof {
                let next = bombs@.subrange(0, k + 1);
                assert(next =~= bombs@.subrange(0, k as int).push(b));
                assert forall|x: int, y: int|
                    in_grid(width as int, height as int, x, y) implies (#[trigger] mask@[cell_index(
                        width as int,
                        x,
                        y,
                    )] <==> next.contains(Coordinates { x: x as u16, y: y as u16 })) by {
                    let e = Coordinates { x: x as u16, y: y as u16 };
                    lemma_cell_index_bounds(width as int, height as int, x, y);
                    let prev = bombs@.subrange(0, k as int);
                    if cell_index(width as int, x, y) == cell_index(width as int, b.x as int, b.y as int) {
                        lemma_cell_index_injective(width as int, height as int, x, y, b.x as int, b.y as int);
                        assert(next[k as int] == e);
                    } else {
                        if next.contains(e) {
                            let j = choose|j: int| 0 <= j < next.len() && next[j] == e;
                            assert(prev[j] == e);
                        }
                        if prev.contains(e) {
                            let j = choose|j: int| 0 <= j < prev.len() && prev[j] == e;
                            assert(next[j] == e);
                        }
                    }
                }
            }
            k = k + 1;
        }
        let r = TileMap::from_mask(width, height, &mask);
        proof {
            assert(bombs@.subrange(0, bombs.len() as int) =~= bombs@);
            assert forall|x: int, y: int|
                in_grid(width as int, height as int, x, y) implies (#[trigger] r.tile_at(x, y) is Bomb
                    <==> bombs@.contains(Coordinates { x: x as u16, y: y as u16 })) by {
                lemma_cell_index_bounds(width as int, height as int, x, y);
            }
        }
        r
    }

    /// Puts `min(count, width * height)` bombs on distinct cells chosen at random,
    /// then classifies every other cell by the bombs around it. What the map held
    /// before is replaced.
    pub fn set_bombs(&mut self, count: u16)
        requires
            old(self).wf(),
        ensures
            final(self).wf(),
            final(self).spec_width() == old(self).spec_width(),
            final(self).spec_height() == old(self).spec_height(),
            final(self).spec_bomb_count() == if count <= old(self).area() {
                count as int
            } else {
                old(self).area()
            },
    {
        let w = self.width;
        let h = self.height;
        let n: usize = grid_area(w, h);
        let target: usize = if (count as usize) <= n {
            count as usize
        } else {
            n
        };
        let mut mask: Vec<bool> = vec![false; n];
        let mut free: Vec<usize> = Vec::new();
        let mut i: usize = 0;
        while i < n
            invariant
                i <= n,
                free.len() == i,
                forall|j: int| 0 <= j < i ==> free@[j] == j,
            decreases n - i,
        {
            free.push(i);
            i = i + 1;
        }
        proof {
            lemma_count_true_none(mask@);
        }
        let mut placed: usize = 0;
        while placed < target
            invariant
                target <= n,
                placed <= target,
                mask.len() == n,
                free.len() == n - placed,
                free@.no_duplicates(),
                forall|j: int| 0 <= j < free.len() ==> #[trigger] free@[j] < n && !mask@[free@[j] as int],
                count_true(mask@) == placed,
            decreases target - placed,
        {
            let j = random_below(free.len());
            let cell = free[j];
            proof {
                lemma_count_true_update(mask@, cell as int, true);
            }
            mask.set(cell, true);
            let ghost before = free@;
            free.swap_remove(j);
            proof {
                let last = before.len() - 1;
                assert forall|a: int| 0 <= a < free.len() implies #[trigger] free@[a] < n
                    && !mask@[free@[a] as int] by {
                    if a == j {
                        assert(free@[a] == before[last]);
                        assert(before[last] != before[j as int]);
                    } else {
                        assert(free@[a] == before[a]);
                        assert(before[a] != before[j as int]);
                    }
                }
                assert forall|a: int, b: int|
                    0 <= a < free.len() && 0 <= b < free.len() && a != b implies free@[a]
                    != free@[b] by {
                    let oa = if a == j { last } else { a };
                    let ob = if b == j { last } else { b };
                    assert(free@[a] == before[oa]);
                    assert(free@[b] == before[ob]);
                }
            }
            placed = placed + 1;
        }
        *self = TileMap::from_mask(w, h, &mask);
    }

    /// A `width` x `height` grid with `min(bomb_count, width * height)` bombs
    /// placed at random; a grid without cells is refused.
    pub fn generate(width: u16, height: u16, bomb_count: u16) -> (r: Result<TileMap, BoardError>)
        ensures
            (width == 0 || height == 0) <==> r is Err,
            r is Err ==> r == Err::<TileMap, BoardError>(BoardError::EmptyGrid),
            r matches Ok(m) ==> {
                &&& m.wf()
                &&& m.spec_width() == width
                &&& m.spec_height() == height
                &&& m.spec_bomb_count() == if bomb_count <= m.area() {
                    bomb_count as int
                } else {
                    m.area()
                }
            },
    {
        if width == 0 || height == 0 {
            return Err(BoardError::EmptyGrid);
        }
        let mut m = TileMap::empty(width, height);
        m.set_bombs(bomb_count);
        Ok(m)
    }

    /// The first `Empty` cell in row-major order, if any.
    pub fn first_empty(&self) -> (r: Option<Coordinates>)
        requires
            self.wf(),
        ensures
            r matches Some(c) ==> self.is_first_empty(c),
            r is None ==> forall|x: int, y: int|
                in_grid(self.spec_width() as int, self.spec_height() as int, x, y)
                    ==> !(#[trigger] self.tile_at(x, y) is Empty),
    {
        let mut y: u16 = 0;
        while y < self.height
            invariant
                self.wf(),
                y <= self.spec_height(),
                forall|xx: int, yy: int|
                    0 <= xx < self.spec_width() && 0 <= yy < y ==> !(#[trigger] self.tile_at(xx, yy) is Empty),
            decreases self.spec_height() - y,
        {
            let mut x: u16 = 0;
            while x < self.width
                invariant
                    self.wf(),
                    y < self.spec_height(),
                    x <= self.spec_width(),
                    forall|xx: int, yy: int|
                        0 <= xx < self.spec_width() && 0 <= yy < y ==> !(#[trigger] self.tile_at(xx, yy) is Empty),
                    forall|xx: int| 0 <= xx < x ==> !(#[trigger] self.tile_at(xx, y as int) is Empty),
                decreases self.spec_width() - x,
            {
                let c = Coordinates { x, y };
                if self.tile(c).is_empty() {
                    proof {
                        assert forall|xx: int, yy: int|
                            in_grid(self.spec_width() as int, self.spec_height() as int, xx, yy) && (yy < c.y || (yy == c.y
                                && xx < c.x)) implies !(#[trigger] self.tile_at(xx, yy) is Empty) by {
                            if yy == c.y {
                                assert(!(self.tile_at(xx, y as int) is Empty));
                            }
                        }
                    }
                    return Some(c);
                }
                x = x + 1;
            }
            y = y + 1;
        }
        None
    }

    pub fn width(&self) -> (r: u16)
        ensures
            r == self.spec_width(),
    {
        self.width
    }

    pub fn height(&self) -> (r: u16)
        ensures
            r == self.spec_height(),
    {
        self.height
    }

    /// Number of bombs on the grid.
    pub fn bomb_count(&self) -> (r: usize)
        ensures
            r == self.spec_bomb_count(),
    {
        self.bomb_count
    }

    /// The tile at `c`.
    pub fn tile(&self, c: Coordinates) -> (r: Tile)
        requires
            self.wf(),
            self.contains(c),
        ensures
            r == self.tile_at(c.x as int, c.y as int),
    {
        proof {
            lemma_cell_index_bounds(
                self.width as int,
                self.height as int,
                c.x as int,
                c.y as int,
            );
            assert(self.map.len() == self.width * self.height);
        }
        let w: usize = self.width as usize;
        let x: usize = c.x as usize;
        let y: usize = c.y as usize;
        self.map[y * w + x]
    }

    /// Whether `c` names a cell of the grid.
    pub fn has(&self, c: Coordinates) -> (r: bool)
        ensures
            r == self.contains(c),
    {
        c.x < self.width && c.y < self.height
    }

    /// Whether the cell `c` holds a bomb.
    pub fn is_bomb_at(&self, c: Coordinates) -> (r: bool)
        requires
            self.wf(),
            self.contains(c),
        ensures
            r == (self.tile_at(c.x as int, c.y as int) is Bomb),
    {
        self.tile(c).is_bomb()
    }

    /// `c` is an `Empty` cell of the grid and no cell before it in row-major order
    /// is `Empty`.
    pub open spec fn is_first_empty(&self, c: Coordinates) -> bool {
        &&& self.contains(c)
        &&& self.tile_at(c.x as int, c.y as int) is Empty
        &&& forall|x: int, y: int|
            in_grid(self.spec_width() as int, self.spec_height() as int, x, y) && (y < c.y || (y == c.y
                && x < c.x)) ==> !(#[trigger] self.tile_at(x, y) is Empty)
    }

    /// The cells around `c` in this grid.
    pub open spec fn neighbors(&self, c: Coordinates) -> Seq<Coordinates> {
        neighbor_seq(self.spec_width() as int, self.spec_height() as int, c)
    }

    /// The up-to-eight cells around `c` that lie in the grid, row by row, each once.
    pub fn safe_square_at(&self, c: Coordinates) -> (r: Vec<Coordinates>)
        ensures
            r@ == self.neighbors(c),
            forall|d: Coordinates| #[trigger]
                r@.contains(d) <==> is_neighbor(
                    self.spec_width() as int,
                    self.spec_height() as int,
                    c,
                    d,
                ),
            scan_ordered(c, r@),
            r@.no_duplicates(),
            r.len() <= 8,
    {
        let w = self.width;
        let h = self.height;
        let mut v: Vec<Coordinates> = Vec::new();
        push_neighbor(&mut v, w, h, c, 0, 0);
        push_neighbor(&mut v, w, h, c, 1, 0);
        push_neighbor(&mut v, w, h, c, 2, 0);
        push_neighbor(&mut v, w, h, c, 0, 1);
        push_neighbor(&mut v, w, h, c, 2, 1);
        push_neighbor(&mut v, w, h, c, 0, 2);
        push_neighbor(&mut v, w, h, c, 1, 2);
        push_neighbor(&mut v, w, h, c, 2, 2);
        assert forall|i: int, j: int| 0 <= i < v.len() && 0 <= j < v.len() && i != j implies v@[i] != v@[j] by {
            if i < j {
                assert(offset_key(c, v@[i]) < offset_key(c, v@[j]));
            } else {
                assert(offset_key(c, v@[j]) < offset_key(c, v@[i]));
            }
        }
        v
    }
}

} // verus!
