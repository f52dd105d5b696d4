//! The level's tile map: which tiles are walls and which are open to walk.

use crate::grid::{adjacent, flood_fill_grid, follows, lemma_index_in_bounds, lemma_same_cell, Grid, GridPosition};
use crate::world::WorldPosition;
use vstd::arithmetic::div_mod::lemma_fundamental_div_mod_converse;
use vstd::prelude::*;

verus! {

/// Edge length of one tile, in world units.
pub const TILE_SIZE: i32 = 10;

/// Half the edge length of one tile, in world units.
pub const HALF_TILE_SIZE: i32 = 5;

/// Open tiles are those a worker can stand on; walled tiles hold a wall.
/// Removing a wall opens it and every wall-free tile connected to it.
#[derive(Eq, PartialEq, Debug)]
pub struct GameLevel {
    pub open_tiles: Grid<bool>,
    pub walled_tiles: Grid<bool>,
}

/// The tile at position `i` of the column-major walk over a level with
/// `height` rows.
pub open spec fn tile_at_index(height: int, i: int) -> GridPosition {
    GridPosition { x: (i / height) as i32, z: (i % height) as i32 }
}

/// `path` is a walk of orthogonal steps over wall-free tiles of `level`.
pub open spec fn wall_free_walk(level: GameLevel, path: Seq<GridPosition>) -> bool {
    &&& path.len() >= 1
    &&& forall|i: int|
        0 <= i < path.len() ==> level.walled_tiles.spec_within(path[i].x as int, path[i].z as int) && !level.spec_walled(
            path[i].x as int,
            path[i].z as int,
        )
    &&& forall|i: int| 0 <= i < path.len() - 1 ==> #[trigger] adjacent(path[i], path[i + 1])
}

/// `p` is joined to `from` by wall-free tiles of `level`.
pub open spec fn joined(level: GameLevel, from: GridPosition, p: GridPosition) -> bool {
    exists|path: Seq<GridPosition>| #[trigger] wall_free_walk(level, path) && path[0] == from && path.last() == p
}

/// Entries `1..` of `s` are wall-free, the first of them is `from` and each
/// later one is next to an earlier one: each is joined to `from`.
proof fn lemma_entry_joined(level: GameLevel, s: Seq<GridPosition>, from: GridPosition, i: int)
    requires
        2 <= s.len(),
        s[1] == from,
        1 <= i < s.len(),
        forall|k: int| 1 <= k < s.len() ==> level.walled_tiles.spec_within(s[k].x as int, s[k].z as int)
            && !level.spec_walled(s[k].x as int, s[k].z as int),
        forall|k: int| 2 <= k < s.len() ==> #[trigger] follows(s, k),
    ensures
        joined(level, from, s[i]),
    decreases i,
{
    if i == 1 {
        let path = seq![from];
        assert(wall_free_walk(level, path));
    } else {
        assert(follows(s, i));
        reveal(follows);
        let j = choose|j: int| 1 <= j < i && adjacent(s[j], s[i]);
        lemma_entry_joined(level, s, from, j);
        let w = choose|path: Seq<GridPosition>| #[trigger] wall_free_walk(level, path) && path[0] == from && path.last() == s[j];
        let path = w.push(s[i]);
        assert forall|m: int| 0 <= m < path.len() - 1 implies #[trigger] adjacent(path[m], path[m + 1]) by {
            if m < w.len() - 1 {
                assert(path[m] == w[m] && path[m + 1] == w[m + 1]);
            }
        }
        assert forall|m: int| 0 <= m < path.len() implies level.walled_tiles.spec_within(path[m].x as int, path[m].z as int)
            && !level.spec_walled(path[m].x as int, path[m].z as int) by {
            if m < w.len() {
                assert(path[m] == w[m]);
            }
        }
        assert(wall_free_walk(level, path));
    }
}

/// Opening spread to every wall-free neighbour of `p`.
pub open spec fn spread_from(level: GameLevel, p: GridPosition) -> bool {
    forall|q: GridPosition|
        #[trigger] adjacent(p, q) && level.walled_tiles.spec_within(q.x as int, q.z as int) && !level.spec_walled(
            q.x as int,
            q.z as int,
        ) ==> level.spec_open(q.x as int, q.z as int)
}

fn floor_div_tile(v: i32) -> (r: i32)
    ensures
        r == v as int / TILE_SIZE as int,
{
    if v >= 0 {
        let q = (v as u32) / 10;
        assert(q as int == v as int / 10);
        q as i32
    } else {
        let n: i64 = -(v as i64);
        let q: i64 = ((n + 9) as u64 / 10) as i64;
        let r: i64 = n + 9 - q * 10;
        assert(0 <= r < 10);
        assert(v as int == (-q) * 10 + (9 - r)) by (nonlinear_arith)
            requires
                n == -v,
                r == n + 9 - q * 10,
        ;
        proof {
            lemma_fundamental_div_mod_converse(v as int, 10, -q as int, 9 - r as int);
        }
        (-q) as i32
    }
}

impl GameLevel {
    /// Both grids have the same positive-sized shape invariants.
    pub open spec fn wf(&self) -> bool {
        &&& self.open_tiles.wf()
        &&& self.walled_tiles.wf()
        &&& self.open_tiles.width == self.walled_tiles.width
        &&& self.open_tiles.height == self.walled_tiles.height
    }

    pub open spec fn spec_open(&self, x: int, z: int) -> bool {
        self.open_tiles.spec_within(x, z) && self.open_tiles.cell(x, z)
    }

    pub open spec fn spec_walled(&self, x: int, z: int) -> bool {
        self.walled_tiles.spec_within(x, z) && self.walled_tiles.cell(x, z)
    }

    /// A level of `width` by `height` tiles, all of them walls.
    pub fn new(height: i32, width: i32) -> (r: Self)
        requires
            0 <= width,
            0 <= height,
            width * height <= i32::MAX,
        ensures
            r.wf(),
            r.spec_width() == width,
            r.spec_height() == height,
            forall|i: int| 0 <= i < width * height ==> !r.open_tiles.items@[i],
            forall|i: int| 0 <= i < width * height ==> r.walled_tiles.items@[i],
    {
        Self { open_tiles: Grid::new(width, height, false), walled_tiles: Grid::new(width, height, true) }
    }

    /// A level whose open tiles are `grid` and whose walls are all other tiles.
    pub fn new_from_open_tiles(grid: Grid<bool>) -> (r: Self)
        requires
            grid.wf(),
        ensures
            r.wf(),
            r.open_tiles == grid,
            r.walled_tiles.width == grid.width,
            r.walled_tiles.height == grid.height,
            forall|i: int|
                0 <= i < grid.items@.len() ==> r.walled_tiles.items@[i] == !grid.items@[i],
    {
        let walled_tiles = grid.map(|b: &bool| -> (r: bool) ensures r == !*b { !*b });
        Self { open_tiles: grid, walled_tiles }
    }

    pub open spec fn spec_width(&self) -> int {
        self.open_tiles.width as int
    }

    pub open spec fn spec_height(&self) -> int {
        self.open_tiles.height as int
    }

    pub fn width(&self) -> (r: i32)
        ensures
            r == self.spec_width(),
    {
        self.open_tiles.width()
    }

    pub fn height(&self) -> (r: i32)
        ensures
            r == self.spec_height(),
    {
        self.open_tiles.height()
    }

    /// Turns the wall at `(x, z)` into open floor, then opens every tile
    /// that is connected to it without crossing a wall.
    pub fn remove_wall(&mut self, x: i32, z: i32)
        requires
            old(self).wf(),
            old(self).open_tiles.spec_within(x as int, z as int),
        ensures
            final(self).wf(),
            final(self).spec_width() == old(self).spec_width(),
            final(self).spec_height() == old(self).spec_height(),
            final(self).walled_tiles.items@ == old(self).walled_tiles.items@.update(
                old(self).walled_tiles.index_of(x as int, z as int),
                false,
            ),
            final(self).spec_open(x as int, z as int),
            forall|a: int, b: int|
                old(self).spec_open(a, b) ==> final(self).spec_open(a, b),
            forall|a: int, b: int|
                final(self).spec_open(a, b) && !old(self).spec_open(a, b) ==> !final(self).spec_walled(a, b),
            spread_from(*final(self), GridPosition { x, z }),
            forall|p: GridPosition|
                final(self).spec_open(p.x as int, p.z as int) && !old(self).spec_open(p.x as int, p.z as int)
                    ==> #[trigger] spread_from(*final(self), p),
            forall|p: GridPosition|
                final(self).spec_open(p.x as int, p.z as int) && !old(self).spec_open(p.x as int, p.z as int)
                    ==> #[trigger] joined(*final(self), GridPosition { x, z }, p),
    {
        let ghost before = *old(self);
        self.walled_tiles.set(x, z, false);
        self.open_tiles.set(x, z, true);
        let ghost middle = *self;
        proof {
            lemma_index_in_bounds(x as int, z as int, middle.open_tiles.width as int, middle.open_tiles.height as int);
        }
        assert(middle.spec_open(x as int, z as int));
        assert forall|a: int, b: int| before.spec_open(a, b) implies middle.spec_open(a, b) by {
            lemma_index_in_bounds(a, b, middle.open_tiles.width as int, middle.open_tiles.height as int);
            if middle.open_tiles.index_of(a, b) != middle.open_tiles.index_of(x as int, z as int) {
                assert(middle.open_tiles.cell(a, b) == before.open_tiles.cell(a, b));
            }
        }
        assert forall|a: int, b: int|
            middle.spec_open(a, b) && !before.spec_open(a, b) implies !middle.spec_walled(a, b) by {
            lemma_index_in_bounds(a, b, middle.open_tiles.width as int, middle.open_tiles.height as int);
            if middle.open_tiles.index_of(a, b) == middle.open_tiles.index_of(x as int, z as int) {
                lemma_same_cell(middle.open_tiles.width as int, a, b, x as int, z as int);
            } else {
                assert(middle.open_tiles.cell(a, b) == before.open_tiles.cell(a, b));
            }
        }
        assert(!middle.spec_walled(x as int, z as int));
        self.expand_open_tiles(x, z);
        proof {
            assert forall|p: GridPosition|
                self.spec_open(p.x as int, p.z as int) && !before.spec_open(p.x as int, p.z as int)
                    implies #[trigger] spread_from(*self, p) by {
                if p.x == x && p.z == z {
                    assert(p == GridPosition { x, z });
                } else {
                    if middle.spec_open(p.x as int, p.z as int) {
                        lemma_index_in_bounds(p.x as int, p.z as int, middle.open_tiles.width as int, middle.open_tiles.height as int);
                        if middle.open_tiles.index_of(p.x as int, p.z as int) == middle.open_tiles.index_of(x as int, z as int) {
                            lemma_same_cell(middle.open_tiles.width as int, p.x as int, p.z as int, x as int, z as int);
                        } else {
                            assert(middle.open_tiles.cell(p.x as int, p.z as int) == before.open_tiles.cell(p.x as int, p.z as int));
                        }
                    }
                }
            }
            assert forall|p: GridPosition|
                self.spec_open(p.x as int, p.z as int) && !before.spec_open(p.x as int, p.z as int)
                    implies #[trigger] joined(*self, GridPosition { x, z }, p) by {
                if p.x == x && p.z == z {
                    let path = seq![p];
                    assert(wall_free_walk(*self, path));
                } else {
                    lemma_index_in_bounds(p.x as int, p.z as int, middle.open_tiles.width as int, middle.open_tiles.height as int);
                    if middle.spec_open(p.x as int, p.z as int) {
                        if middle.open_tiles.index_of(p.x as int, p.z as int) == middle.open_tiles.index_of(x as int, z as int) {
                            lemma_same_cell(middle.open_tiles.width as int, p.x as int, p.z as int, x as int, z as int);
                        } else {
                            assert(middle.open_tiles.cell(p.x as int, p.z as int) == before.open_tiles.cell(p.x as int, p.z as int));
                        }
                    }
                }
            }
        }
    }

    fn expand_open_tiles(&mut self, x: i32, z: i32)
        requires
            old(self).wf(),
            old(self).open_tiles.spec_within(x as int, z as int),
        ensures
            final(self).wf(),
            final(self).walled_tiles == old(self).walled_tiles,
            final(self).open_tiles.width == old(self).open_tiles.width,
            final(self).open_tiles.height == old(self).open_tiles.height,
            forall|a: int, b: int|
                old(self).spec_open(a, b) ==> final(self).spec_open(a, b),
            forall|a: int, b: int|
                final(self).spec_open(a, b) && !old(self).spec_open(a, b) ==> !final(self).spec_walled(a, b),
            old(self).spec_open(x as int, z as int) && !old(self).spec_walled(x as int, z as int) ==> spread_from(
                *final(self),
                GridPosition { x, z },
            ),
            forall|p: GridPosition|
                final(self).spec_open(p.x as int, p.z as int) && !old(self).spec_open(p.x as int, p.z as int)
                    ==> #[trigger] spread_from(*final(self), p),
            forall|p: GridPosition|
                final(self).spec_open(p.x as int, p.z as int) && !old(self).spec_open(p.x as int, p.z as int)
                    ==> #[trigger] joined(*final(self), GridPosition { x, z }, p),
    {
        if !self.is_open(x, z) {
            return;
        }
        let walled_tiles = &self.walled_tiles;
        let passable = |x: i32, y: i32| -> (r: bool)
            ensures
                r == (walled_tiles.spec_within(x as int, y as int) && !walled_tiles.cell(x as int, y as int)),
        {
            match walled_tiles.get(x, y) {
                Some(w) => !*w,
                None => false,
            }
        };
        let matched = flood_fill_grid(walled_tiles, x, z, passable);
        let ghost start = *old(self);
        let mut i: usize = 0;
        while i < matched.len()
            invariant
                self.wf(),
                self.walled_tiles == start.walled_tiles,
                self.open_tiles.width == start.open_tiles.width,
                self.open_tiles.height == start.open_tiles.height,
                start.spec_open(x as int, z as int),
                matched@.len() >= 1,
                matched@[0] == (GridPosition { x, z }),
                forall|k: int|
                    1 <= k < matched@.len() ==> {
                        &&& start.walled_tiles.spec_within(matched@[k].x as int, matched@[k].z as int)
                        &&& !start.walled_tiles.cell(matched@[k].x as int, matched@[k].z as int)
                    },
                forall|a: int, b: int| start.spec_open(a, b) ==> self.spec_open(a, b),
                forall|a: int, b: int|
                    self.spec_open(a, b) && !start.spec_open(a, b) ==> !self.spec_walled(a, b),
                i <= matched@.len(),
                forall|a: int, b: int|
                    self.spec_open(a, b) && !start.spec_open(a, b) ==> exists|k: int|
                        0 <= k < i && (#[trigger] matched@[k]).x == a && matched@[k].z == b,
                forall|k: int| 0 <= k < i ==> self.spec_open((#[trigger] matched@[k]).x as int, matched@[k].z as int),
            decreases matched@.len() - i,
        {
            let pos = matched[i];
            let ghost before = *self;
            self.open_tiles.set(pos.x, pos.z, true);
            proof {
                let p = self.open_tiles.index_of(pos.x as int, pos.z as int);
                lemma_index_in_bounds(pos.x as int, pos.z as int, self.open_tiles.width as int, self.open_tiles.height as int);
                assert forall|a: int, b: int| before.spec_open(a, b) implies self.spec_open(a, b) by {
                    lemma_index_in_bounds(a, b, self.open_tiles.width as int, self.open_tiles.height as int);
                    if before.open_tiles.index_of(a, b) != p {
                        assert(self.open_tiles.cell(a, b) == before.open_tiles.cell(a, b));
                    }
                }
                assert forall|a: int, b: int|
                    self.spec_open(a, b) && !start.spec_open(a, b) implies !self.spec_walled(a, b) by {
                    lemma_index_in_bounds(a, b, self.open_tiles.width as int, self.open_tiles.height as int);
                    if self.open_tiles.index_of(a, b) == p {
                        lemma_same_cell(self.open_tiles.width as int, a, b, pos.x as int, pos.z as int);
                    } else {
                        assert(self.open_tiles.cell(a, b) == before.open_tiles.cell(a, b));
                    }
                }
                assert(self.spec_open(pos.x as int, pos.z as int));
                assert forall|a: int, b: int|
                    self.spec_open(a, b) && !start.spec_open(a, b) implies exists|k: int|
                        0 <= k < i + 1 && (#[trigger] matched@[k]).x == a && matched@[k].z == b by {
                    lemma_index_in_bounds(a, b, self.open_tiles.width as int, self.open_tiles.height as int);
                    if self.open_tiles.index_of(a, b) == p {
                        lemma_same_cell(self.open_tiles.width as int, a, b, pos.x as int, pos.z as int);
                        assert(matched@[i as int].x == a && matched@[i as int].z == b);
                    } else {
                        assert(self.open_tiles.cell(a, b) == before.open_tiles.cell(a, b));
                    }
                }
                assert forall|k: int| 0 <= k < i + 1 implies self.spec_open((#[trigger] matched@[k]).x as int, matched@[k].z as int) by {
                    if k < i {
                        assert(before.spec_open(matched@[k].x as int, matched@[k].z as int));
                    }
                }
            }
            i = i + 1;
        }
        proof {
            let rs = matched@.subrange(1, matched@.len() as int);
            assert forall|k: int, q: GridPosition|
                0 <= k < matched@.len() && #[trigger] adjacent(matched@[k], q) && self.walled_tiles.spec_within(q.x as int, q.z as int)
                    && !self.spec_walled(q.x as int, q.z as int) && !self.spec_walled(matched@[k].x as int, matched@[k].z as int)
                    implies self.spec_open(q.x as int, q.z as int) by {
                let j = if k == 0 {
                    assert(rs.contains(GridPosition { x, z }));
                    let m = choose|m: int| 0 <= m < rs.len() && rs[m] == GridPosition { x, z };
                    m + 1
                } else {
                    k
                };
                assert(matched@[j] == matched@[k]);
                assert(adjacent(matched@[j], q));
                assert(rs.contains(q));
                let m = choose|m: int| 0 <= m < rs.len() && rs[m] == q;
                assert(matched@[m + 1] == q);
            }
            if start.spec_open(x as int, z as int) && !start.spec_walled(x as int, z as int) {
                assert forall|q: GridPosition|
                    #[trigger] adjacent(GridPosition { x, z }, q) && self.walled_tiles.spec_within(q.x as int, q.z as int)
                        && !self.spec_walled(q.x as int, q.z as int) implies self.spec_open(q.x as int, q.z as int) by {
                    assert(adjacent(matched@[0], q));
                }
            }
            assert forall|p: GridPosition|
                self.spec_open(p.x as int, p.z as int) && !start.spec_open(p.x as int, p.z as int)
                    implies #[trigger] spread_from(*self, p) by {
                let k = choose|k: int| 0 <= k < matched@.len() && (#[trigger] matched@[k]).x == p.x as int && matched@[k].z == p.z as int;
                assert(matched@[k] == p);
                assert forall|q: GridPosition|
                    #[trigger] adjacent(p, q) && self.walled_tiles.spec_within(q.x as int, q.z as int)
                        && !self.spec_walled(q.x as int, q.z as int) implies self.spec_open(q.x as int, q.z as int) by {
                    assert(adjacent(matched@[k], q));
                }
            }
            assert forall|p: GridPosition|
                self.spec_open(p.x as int, p.z as int) && !start.spec_open(p.x as int, p.z as int)
                    implies #[trigger] joined(*self, GridPosition { x, z }, p) by {
                let k = choose|k: int| 0 <= k < matched@.len() && (#[trigger] matched@[k]).x == p.x as int && matched@[k].z == p.z as int;
                assert(matched@[k] == p);
                assert(k != 0);
                assert(rs.contains(GridPosition { x, z }) || passable.ensures((x, z), false));
                assert(matched@[1] == GridPosition { x, z });
                lemma_entry_joined(*self, matched@, GridPosition { x, z }, k);
            }
        }
    }

    /// Whether `(x, z)` lies in the level and is open.
    pub fn is_open(&self, x: i32, z: i32) -> (r: bool)
        requires
            self.wf(),
        ensures
            r == self.spec_open(x as int, z as int),
    {
        match self.open_tiles.get(x, z) {
            Some(v) => *v,
            None => false,
        }
    }

    /// Every tile of the level, column by column.
    pub fn iter_tiles(&self) -> (r: Vec<GridPosition>)
        requires
            self.wf(),
        ensures
            r@.len() == self.spec_width() * self.spec_height(),
            forall|i: int| 0 <= i < r@.len() ==> r@[i] == tile_at_index(self.spec_height(), i),
    {
        let height = self.height();
        let width = self.width();
        let mut r: Vec<GridPosition> = Vec::new();
        let mut x: i32 = 0;
        while x < width
            invariant
                0 <= x <= width,
                width == self.spec_width(),
                height == self.spec_height(),
                width * height <= i32::MAX,
                0 <= height,
                r@.len() == x * height,
                forall|i: int| 0 <= i < r@.len() ==> r@[i] == tile_at_index(height as int, i),
            decreases width - x,
        {
            let mut z: i32 = 0;
            while z < height
                invariant
                    0 <= x < width,
                    0 <= z <= height,
                    width == self.spec_width(),
                    height == self.spec_height(),
                    width * height <= i32::MAX,
                    r@.len() == x * height + z,
                    forall|i: int| 0 <= i < r@.len() ==> r@[i] == tile_at_index(height as int, i),
                decreases height - z,
            {
                proof {
                    lemma_fundamental_div_mod_converse(x * height + z, height as int, x as int, z as int);
                }
                r.push(GridPosition { x, z });
                z = z + 1;
            }
            assert(r@.len() == (x + 1) * height) by (nonlinear_arith)
                requires
                    r@.len() == x * height + height,
            ;
            x = x + 1;
        }
        r
    }

    /// The tile that contains `pos`.
    pub fn get_tile_at(&self, pos: WorldPosition) -> (r: GridPosition)
        ensures
            r.x == pos.x as int / TILE_SIZE as int,
            r.z == pos.z as int / TILE_SIZE as int,
    {
        GridPosition { x: floor_div_tile(pos.x), z: floor_div_tile(pos.z) }
    }

    /// The centre of tile `pos`, at ground height.
    pub fn get_position_at(&self, pos: GridPosition) -> (r: WorldPosition)
        requires
            i32::MIN <= pos.x * TILE_SIZE,
            pos.x * TILE_SIZE + HALF_TILE_SIZE <= i32::MAX,
            i32::MIN <= pos.z * TILE_SIZE,
            pos.z * TILE_SIZE + HALF_TILE_SIZE <= i32::MAX,
        ensures
            r.x == pos.x * TILE_SIZE + HALF_TILE_SIZE,
            r.y == 0,
            r.z == pos.z * TILE_SIZE + HALF_TILE_SIZE,
    {
        WorldPosition { x: pos.x * TILE_SIZE + HALF_TILE_SIZE, y: 0, z: pos.z * TILE_SIZE + HALF_TILE_SIZE }
    }

    /// Whether `(x, z)` lies in the level.
    pub fn within(&self, x: i32, z: i32) -> (r: bool)
        ensures
            r == (0 <= x < self.spec_width() && 0 <= z < self.spec_height()),
    {
        x >= 0 && x < self.width() && z >= 0 && z < self.height()
    }
}

} // verus!
