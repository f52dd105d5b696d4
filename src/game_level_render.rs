//! How the level's walls look: which wall piece stands on a tile, turned
//! how far.

use crate::game_level::GameLevel;
use crate::grid::GridPosition;
use vstd::prelude::*;

verus! {

/// A tile position of the rendered world, which reaches one tile past the
/// level on every side.
#[derive(Eq, PartialEq, Structural, Hash, Copy, Clone, Debug)]
pub struct WorldTilePosition {
    pub x: i32,
    pub z: i32,
}

impl WorldTilePosition {
    /// The eight tiles around this one: the four orthogonal ones, then the
    /// four diagonal ones.
    pub fn neighbors(&self) -> (r: [WorldTilePosition; 8])
        requires
            i32::MIN < self.x < i32::MAX,
            i32::MIN < self.z < i32::MAX,
        ensures
            r@ == seq![
                WorldTilePosition { x: (self.x + 1) as i32, z: self.z },
                WorldTilePosition { x: (self.x - 1) as i32, z: self.z },
                WorldTilePosition { x: self.x, z: (self.z + 1) as i32 },
                WorldTilePosition { x: self.x, z: (self.z - 1) as i32 },
                WorldTilePosition { x: (self.x + 1) as i32, z: (self.z + 1) as i32 },
                WorldTilePosition { x: (self.x + 1) as i32, z: (self.z - 1) as i32 },
                WorldTilePosition { x: (self.x - 1) as i32, z: (self.z + 1) as i32 },
                WorldTilePosition { x: (self.x - 1) as i32, z: (self.z - 1) as i32 },
            ],
    {
        let r = [
            WorldTilePosition { x: self.x + 1, z: self.z },
            WorldTilePosition { x: self.x - 1, z: self.z },
            WorldTilePosition { x: self.x, z: self.z + 1 },
            WorldTilePosition { x: self.x, z: self.z - 1 },
            WorldTilePosition { x: self.x + 1, z: self.z + 1 },
            WorldTilePosition { x: self.x + 1, z: self.z - 1 },
            WorldTilePosition { x: self.x - 1, z: self.z + 1 },
            WorldTilePosition { x: self.x - 1, z: self.z - 1 },
        ];
        assert(r@ =~= seq![
            WorldTilePosition { x: (self.x + 1) as i32, z: self.z },
            WorldTilePosition { x: (self.x - 1) as i32, z: self.z },
            WorldTilePosition { x: self.x, z: (self.z + 1) as i32 },
            WorldTilePosition { x: self.x, z: (self.z - 1) as i32 },
            WorldTilePosition { x: (self.x + 1) as i32, z: (self.z + 1) as i32 },
            WorldTilePosition { x: (self.x + 1) as i32, z: (self.z - 1) as i32 },
            WorldTilePosition { x: (self.x - 1) as i32, z: (self.z + 1) as i32 },
            WorldTilePosition { x: (self.x - 1) as i32, z: (self.z - 1) as i32 },
        ]);
        r
    }

    pub fn as_grid_position(&self) -> (r: GridPosition)
        ensures
            r == (GridPosition { x: self.x, z: self.z }),
    {
        GridPosition { x: self.x, z: self.z }
    }
}

/// The wall pieces.
#[derive(Eq, PartialEq, Structural, Copy, Clone, Debug)]
pub enum WallMesh {
    /// Walls on all four sides and all four corners.
    Full,
    /// Open on one side.
    ThreeWay,
    /// Open on two adjacent sides.
    OuterCorner,
    /// Open on one diagonal corner only.
    InnerCorner,
    /// Open on two opposite diagonal corners.
    InnerDiagonal,
}

/// Turn, in degrees about the vertical axis, of an outer corner with walls
/// to the north, south, east and west as given.
pub open spec fn outer_corner_turn(n: bool, s: bool, e: bool, w: bool) -> i32 {
    if n && !s && !e && w {
        270
    } else if !n && s && !e && w {
        180
    } else if !n && s && e && !w {
        90
    } else {
        0
    }
}

/// Turn of a three-way piece with walls as given.
pub open spec fn three_way_turn(n: bool, s: bool, e: bool, w: bool) -> i32 {
    if n && s && e && !w {
        90
    } else if n && s && !e && w {
        270
    } else if !n && s && e && w {
        180
    } else {
        0
    }
}

/// Turn of an inner corner with the diagonal tiles open as given.
pub open spec fn inner_corner_turn(ne: bool, se: bool, nw: bool, sw: bool) -> i32 {
    if ne && !se && !nw && !sw {
        180
    } else if !ne && se && !nw && !sw {
        270
    } else if !ne && !se && nw && !sw {
        90
    } else {
        0
    }
}

/// Number of `true` among four flags.
pub open spec fn count_true(a: bool, b: bool, c: bool, d: bool) -> int {
    (if a { 1int } else { 0 }) + (if b { 1int } else { 0 }) + (if c { 1int } else { 0 }) + (if d { 1int } else { 0 })
}

/// The piece on tile `(x, z)` and its turn: none on an open tile, and
/// otherwise chosen by how many orthogonal neighbours are walls (tiles
/// outside the level count as walls) and, when all four are, by which
/// diagonal neighbours are open. A wall with fewer than two wall
/// neighbours gets no piece.
pub open spec fn wall_mesh_at(level: GameLevel, x: int, z: int) -> Option<(WallMesh, i32)> {
    let n = !level.spec_open(x, z + 1);
    let s = !level.spec_open(x, z - 1);
    let e = !level.spec_open(x + 1, z);
    let w = !level.spec_open(x - 1, z);
    let ne = level.spec_open(x + 1, z + 1);
    let se = level.spec_open(x + 1, z - 1);
    let nw = level.spec_open(x - 1, z + 1);
    let sw = level.spec_open(x - 1, z - 1);
    if level.spec_open(x, z) {
        None
    } else if count_true(n, s, e, w) == 2 {
        Some((WallMesh::OuterCorner, outer_corner_turn(n, s, e, w)))
    } else if count_true(n, s, e, w) == 3 {
        Some((WallMesh::ThreeWay, three_way_turn(n, s, e, w)))
    } else if count_true(n, s, e, w) == 4 {
        if ne && sw {
            Some((WallMesh::InnerDiagonal, 0))
        } else if nw && se {
            Some((WallMesh::InnerDiagonal, 90))
        } else if ne || se || nw || sw {
            Some((WallMesh::InnerCorner, inner_corner_turn(ne, se, nw, sw)))
        } else {
            Some((WallMesh::Full, 0))
        }
    } else {
        None
    }
}

/// The wall piece on `position` and its turn in degrees.
pub fn get_wall_mesh(level: &GameLevel, position: &GridPosition) -> (r: Option<(WallMesh, i32)>)
    requires
        level.wf(),
        i32::MIN < position.x < i32::MAX,
        i32::MIN < position.z < i32::MAX,
    ensures
        r == wall_mesh_at(*level, position.x as int, position.z as int),
{
    let (x, z) = (position.x, position.z);
    if level.is_open(x, z) {
        return None;
    }
    let n = !level.is_open(x, z + 1);
    let s = !level.is_open(x, z - 1);
    let e = !level.is_open(x + 1, z);
    let w = !level.is_open(x - 1, z);
    let mut count: u8 = 0;
    if n {
        count = count + 1;
    }
    if s {
        count = count + 1;
    }
    if e {
        count = count + 1;
    }
    if w {
        count = count + 1;
    }
    assert(count as int == count_true(n, s, e, w));
    if count == 2 {
        let turn: i32 = match (n, s, e, w) {
            (true, false, true, false) => 0,
            (true, false, false, true) => 270,
            (false, true, false, true) => 180,
            (false, true, true, false) => 90,
            _ => 0,
        };
        Some((WallMesh::OuterCorner, turn))
    } else if count == 3 {
        let turn: i32 = match (n, s, e, w) {
            (true, true, true, false) => 90,
            (true, true, false, true) => 270,
            (true, false, true, true) => 0,
            (false, true, true, true) => 180,
            _ => 0,
        };
        Some((WallMesh::ThreeWay, turn))
    } else if count == 4 {
        let ne = level.is_open(x + 1, z + 1);
        let se = level.is_open(x + 1, z - 1);
        let nw = level.is_open(x - 1, z + 1);
        let sw = level.is_open(x - 1, z - 1);
        if ne || se || nw || sw {
            if ne && sw {
                Some((WallMesh::InnerDiagonal, 0))
            } else if nw && se {
                Some((WallMesh::InnerDiagonal, 90))
            } else {
                let turn: i32 = match (ne, se, nw, sw) {
                    (true, false, false, false) => 180,
                    (false, true, false, false) => 270,
                    (false, false, true, false) => 90,
                    _ => 0,
                };
                Some((WallMesh::InnerCorner, turn))
            }
        } else {
            Some((WallMesh::Full, 0))
        }
    } else {
        None
    }
}

/// A wall dug out at `position` opens the level there, and every wall-free
/// tile joined to it.
pub fn update_game_level_when_wall_is_removed(level: &mut GameLevel, position: WorldTilePosition)
    requires
        old(level).wf(),
    ensures
        final(level).wf(),
        !old(level).open_tiles.spec_within(position.x as int, position.z as int) ==> *final(level) == *old(level),
        old(level).open_tiles.spec_within(position.x as int, position.z as int) ==> final(level).spec_open(
            position.x as int,
            position.z as int,
        ),
{
    if level.within(position.x, position.z) {
        level.remove_wall(position.x, position.z);
    }
}

} // verus!
