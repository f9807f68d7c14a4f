use vstd::prelude::*;

use crate::types::{Pos, ResourceKind, RobotKind, RobotState, Tile, WorldMap};

verus! {

/// The colours the display uses.
#[derive(Clone, Copy, PartialEq, Eq, Debug, Structural)]
pub enum CellColor {
    DarkGray,
    LightCyan,
    LightGreen,
    Green,
    LightMagenta,
    Red,
    Magenta,
}

/// What the display draws on one cell of the map.
#[derive(Clone, Copy, PartialEq, Eq, Debug, Structural)]
pub struct Cell {
    pub symbol: char,
    pub color: CellColor,
}

/// The kind of the last robot of `robots` that stands on `p`, if any.
pub open spec fn robot_kind_at(robots: Seq<RobotState>, p: Pos) -> Option<RobotKind>
    decreases robots.len(),
{
    if robots.len() == 0 {
        None
    } else if robots.last().pos == p {
        Some(robots.last().kind)
    } else {
        robot_kind_at(robots.drop_last(), p)
    }
}

/// How a tile is drawn.
pub open spec fn tile_cell(t: Tile) -> Cell {
    match t {
        Tile::Empty => Cell { symbol: '.', color: CellColor::DarkGray },
        Tile::Obstacle => Cell { symbol: 'O', color: CellColor::LightCyan },
        Tile::Base => Cell { symbol: '#', color: CellColor::LightGreen },
        Tile::Resource(ResourceKind::Energy) => Cell { symbol: 'E', color: CellColor::Green },
        Tile::Resource(ResourceKind::Crystal) => Cell { symbol: 'C', color: CellColor::LightMagenta },
    }
}

/// How the cell `p` is drawn: a robot standing there hides the tile.
pub open spec fn map_cell(map: &WorldMap, robots: Seq<RobotState>, p: Pos) -> Cell {
    match robot_kind_at(robots, p) {
        Some(RobotKind::Scout) => Cell { symbol: 'x', color: CellColor::Red },
        Some(RobotKind::Collector) => Cell { symbol: 'o', color: CellColor::Magenta },
        None => tile_cell(map.tile(p)),
    }
}

/// A cell that no robot stands on shows the character of its tile in the
/// text form of the map (the base as `#` in light green), and two such cells
/// look alike, or share a colour, only when their tiles are the same.
pub proof fn lemma_bare_cells_show_their_tiles(map: &WorldMap, robots: Seq<RobotState>, p: Pos, q: Pos)
    requires
        map.spec_in_bounds(p),
        map.spec_in_bounds(q),
        robot_kind_at(robots, p).is_none(),
        robot_kind_at(robots, q).is_none(),
    ensures
        map_cell(map, robots, p).symbol == map.spec_char_at(p),
        map.tile(p) == Tile::Base ==> map_cell(map, robots, p) == (Cell {
            symbol: '#',
            color: CellColor::LightGreen,
        }),
        map_cell(map, robots, p).color == map_cell(map, robots, q).color <==> map.tile(p) == map.tile(q),
        map_cell(map, robots, p) == map_cell(map, robots, q) <==> map.tile(p) == map.tile(q),
{
}

/// A robot hides its cell: a scout shows as a red `x`, a collector as a
/// magenta `o`, each unlike any tile.
pub proof fn lemma_robots_hide_tiles(map: &WorldMap, robots: Seq<RobotState>, p: Pos, q: Pos)
    requires
        robot_kind_at(robots, p).is_some(),
        robot_kind_at(robots, q).is_none(),
    ensures
        map_cell(map, robots, p).color != map_cell(map, robots, q).color,
        robot_kind_at(robots, p) == Some(RobotKind::Scout) ==> map_cell(map, robots, p) == (Cell {
            symbol: 'x',
            color: CellColor::Red,
        }),
        robot_kind_at(robots, p) == Some(RobotKind::Collector) ==> map_cell(map, robots, p) == (Cell {
            symbol: 'o',
            color: CellColor::Magenta,
        }),
{
}

/// Draws the simulation on the terminal.
pub struct UIRenderer;

impl UIRenderer {
    pub fn new() -> (r: Self) {
        UIRenderer
    }

    fn kind_at(robots: &Vec<RobotState>, p: Pos) -> (r: Option<RobotKind>)
        ensures
            r == robot_kind_at(robots@, p),
    {
        let mut found: Option<RobotKind> = None;
        let mut i: usize = 0;
        while i < robots.len()
            invariant
                i <= robots@.len(),
                found == robot_kind_at(robots@.take(i as int), p),
            decreases robots@.len() - i,
        {
            let ghost t0 = robots@.take(i as int);
            assert(robots@.take(i + 1).drop_last() =~= t0);
            if robots[i].pos == p {
                found = Some(robots[i].kind);
            }
            i = i + 1;
        }
        assert(robots@.take(robots@.len() as int) =~= robots@);
        found
    }

    /// The cells of the map as drawn, row by row, with the robots on top.
    pub fn map_cells(&self, map: &WorldMap, robots: &Vec<RobotState>) -> (r: Vec<Vec<Cell>>)
        requires
            map.wf(),
        ensures
            r@.len() == map.height,
            forall|y: int| 0 <= y < map.height ==> #[trigger] r@[y]@.len() == map.width,
            forall|p: Pos|
                map.spec_in_bounds(p) ==> #[trigger] r@[p.y as int]@[p.x as int] == map_cell(map, robots@, p),
    {
        let mut rows: Vec<Vec<Cell>> = Vec::new();
        let mut y: usize = 0;
        while y < map.height
            invariant
                map.wf(),
                y <= map.height,
                rows@.len() == y,
                forall|j: int| 0 <= j < y ==> #[trigger] rows@[j]@.len() == map.width,
                forall|p: Pos|
                    map.spec_in_bounds(p) && p.y < y ==> #[trigger] rows@[p.y as int]@[p.x as int]
                        == map_cell(map, robots@, p),
            decreases map.height - y,
        {
            let mut row: Vec<Cell> = Vec::new();
            let mut x: usize = 0;
            while x < map.width
                invariant
                    map.wf(),
                    y < map.height,
                    x <= map.width,
                    row@.len() == x,
                    forall|i: int|
                        0 <= i < x ==> #[trigger] row@[i] == map_cell(map, robots@, Pos { x: i as usize, y }),
                decreases map.width - x,
            {
                let p = Pos { x, y };
                let cell = match Self::kind_at(robots, p) {
                    Some(RobotKind::Scout) => Cell { symbol: 'x', color: CellColor::Red },
                    Some(RobotKind::Collector) => Cell { symbol: 'o', color: CellColor::Magenta },
                    None => match map.tiles[y][x] {
                        Tile::Empty => Cell { symbol: '.', color: CellColor::DarkGray },
                        Tile::Obstacle => Cell { symbol: 'O', color: CellColor::LightCyan },
                        Tile::Base => Cell { symbol: '#', color: CellColor::LightGreen },
                        Tile::Resource(ResourceKind::Energy) => Cell { symbol: 'E', color: CellColor::Green },
                        Tile::Resource(ResourceKind::Crystal) => Cell {
                            symbol: 'C',
                            color: CellColor::LightMagenta,
                        },
                    },
                };
                row.push(cell);
                x = x + 1;
            }
            let ghost before = rows@;
            rows.push(row);
            proof {
                assert forall|p: Pos|
                    map.spec_in_bounds(p) && p.y < y + 1 implies #[trigger] rows@[p.y as int]@[p.x as int]
                    == map_cell(map, robots@, p) by {
                    if p.y < y {
                        assert(rows@[p.y as int] == before[p.y as int]);
                    } else {
                        assert(p == Pos { x: p.x as usize, y });
                    }
                }
            }
            y = y + 1;
        }
        rows
    }
}

} // verus!
