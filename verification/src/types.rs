use vstd::prelude::*;

use crate::collections::ResourceMap;

verus! {

/// A cell of the grid, by column `x` and row `y`.
#[derive(Clone, Copy, PartialEq, Eq, Hash, Debug, Structural)]
pub struct Pos {
    pub x: usize,
    pub y: usize,
}

/// The two kinds of resource found on the map.
#[derive(Clone, Copy, PartialEq, Eq, Hash, Debug, Structural)]
pub enum ResourceKind {
    Energy,
    Crystal,
}

/// What stands on a cell of the map.
#[derive(Clone, Copy, PartialEq, Eq, Debug, Structural)]
pub enum Tile {
    Empty,
    Obstacle,
    Base,
    Resource(ResourceKind),
}

/// A deposit: its kind and how many units are left in it.
#[derive(Clone, Copy, PartialEq, Eq, Debug, Structural)]
pub struct Resource {
    pub kind: ResourceKind,
    pub quantity: u32,
}

/// What robots tell the base.
#[derive(Clone, Copy, PartialEq, Eq, Debug, Structural)]
pub enum RobotMessage {
    /// A scout found a deposit.
    DiscoveredResource { pos: Pos, resource: Resource },
    /// A scout found an obstacle.
    DiscoveredObstacle { pos: Pos },
    /// A collector took one unit from the deposit at `pos`.
    CollectedUnit { pos: Pos, kind: ResourceKind },
    /// A collector unloaded `amount` units at the base.
    Unloading { robot_id: usize, kind: ResourceKind, amount: u32 },
}

/// The two kinds of robot.
#[derive(Clone, Copy, PartialEq, Eq, Debug, Structural)]
pub enum RobotKind {
    Scout,
    Collector,
}

/// What the display shows of a robot.
#[derive(Clone, Copy, Debug)]
pub struct RobotState {
    pub id: usize,
    pub kind: RobotKind,
    pub pos: Pos,
    pub carrying: Option<(ResourceKind, u32)>,
}

/// The map: `height` rows of `width` tiles, the base and the deposits.
pub struct WorldMap {
    pub width: usize,
    pub height: usize,
    pub tiles: Vec<Vec<Tile>>,
    pub base_pos: Pos,
    pub resources: ResourceMap,
}

impl WorldMap {
    /// The tiles form `height` rows of `width` tiles each.
    pub open spec fn wf(&self) -> bool {
        &&& self.tiles@.len() == self.height
        &&& forall|y: int| 0 <= y < self.height ==> #[trigger] self.tiles@[y]@.len() == self.width
        &&& self.resources.wf()
    }

    pub open spec fn spec_in_bounds(&self, pos: Pos) -> bool {
        pos.x < self.width && pos.y < self.height
    }

    /// The tile at `pos`, meaningful for a position within the map.
    pub open spec fn tile(&self, pos: Pos) -> Tile {
        self.tiles@[pos.y as int]@[pos.x as int]
    }

    /// Whether `pos` lies on the map.
    pub fn in_bounds(&self, pos: Pos) -> (r: bool)
        ensures
            r == self.spec_in_bounds(pos),
    {
        pos.x < self.width && pos.y < self.height
    }

    /// Sets the tile at `pos`, leaving every other tile as it was.
    pub(crate) fn set_tile(&mut self, pos: Pos, tile: Tile)
        requires
            old(self).wf(),
            old(self).spec_in_bounds(pos),
        ensures
            final(self).wf(),
            final(self).width == old(self).width,
            final(self).height == old(self).height,
            final(self).base_pos == old(self).base_pos,
            final(self).resources == old(self).resources,
            final(self).tile(pos) == tile,
            forall|q: Pos|
                final(self).spec_in_bounds(q) && q != pos ==> #[trigger] final(self).tile(q) == old(self).tile(q),
    {
        let ghost old_tiles = self.tiles@;
        let mut row: Vec<Tile> = Vec::new();
        let mut x: usize = 0;
        while x < self.width
            invariant
                self.wf(),
                self.tiles@ == old_tiles,
                self.spec_in_bounds(pos),
                x <= self.width,
                row@.len() == x,
                forall|i: int| 0 <= i < x ==> #[trigger] row@[i] == (if i == pos.x {
                    tile
                } else {
                    old_tiles[pos.y as int]@[i]
                }),
            decreases self.width - x,
        {
            let t = if x == pos.x {
                tile
            } else {
                self.tiles[pos.y][x]
            };
            row.push(t);
            x = x + 1;
        }
        self.tiles.set(pos.y, row);
        assert forall|q: Pos|
            self.spec_in_bounds(q) && q != pos implies #[trigger] self.tile(q) == old_tiles[q.y as int]@[q.x as int] by {
            if q.y == pos.y {
                assert(self.tile(q) == row@[q.x as int]);
            }
        }
        assert forall|y: int| 0 <= y < self.height implies #[trigger] self.tiles@[y]@.len() == self.width by {
            if y != pos.y {
                assert(self.tiles@[y] == old_tiles[y]);
            }
        }
    }

    /// The tile at `pos`, or `None` off the map.
    pub open spec fn spec_get_tile(&self, pos: Pos) -> Option<Tile> {
        if self.spec_in_bounds(pos) {
            Some(self.tile(pos))
        } else {
            None
        }
    }

    /// The tile at `pos`, or `None` off the map.
    pub fn get_tile(&self, pos: Pos) -> (r: Option<Tile>)
        requires
            self.wf(),
        ensures
            r == self.spec_get_tile(pos),
    {
        if self.in_bounds(pos) {
            Some(self.tiles[pos.y][pos.x])
        } else {
            None
        }
    }

    /// A robot may stand on `pos`: it is on the map and not an obstacle.
    pub open spec fn spec_is_walkable(&self, pos: Pos) -> bool {
        self.spec_in_bounds(pos) && self.tile(pos) != Tile::Obstacle
    }

    /// Whether a robot may stand on `pos`.
    pub fn is_walkable(&self, pos: Pos) -> (r: bool)
        requires
            self.wf(),
        ensures
            r == self.spec_is_walkable(pos),
    {
        match self.get_tile(pos) {
            Some(Tile::Empty) | Some(Tile::Base) | Some(Tile::Resource(_)) => true,
            _ => false,
        }
    }

    /// The character that shows a tile, or a space off the map.
    pub open spec fn spec_char_at(&self, pos: Pos) -> char {
        match self.spec_get_tile(pos) {
            Some(Tile::Obstacle) => 'O',
            Some(Tile::Base) => '#',
            Some(Tile::Resource(ResourceKind::Energy)) => 'E',
            Some(Tile::Resource(ResourceKind::Crystal)) => 'C',
            Some(Tile::Empty) => '.',
            None => ' ',
        }
    }

    /// The character that shows the tile at `pos`.
    pub fn char_at(&self, pos: Pos) -> (r: char)
        requires
            self.wf(),
        ensures
            r == self.spec_char_at(pos),
    {
        match self.get_tile(pos) {
            Some(Tile::Obstacle) => 'O',
            Some(Tile::Base) => '#',
            Some(Tile::Resource(ResourceKind::Energy)) => 'E',
            Some(Tile::Resource(ResourceKind::Crystal)) => 'C',
            Some(Tile::Empty) => '.',
            None => ' ',
        }
    }
}

} // verus!
