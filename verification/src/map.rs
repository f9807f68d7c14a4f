use vstd::prelude::*;

use crate::collections::ResourceMap;
use crate::rng::{random_between, seeded_rng, shuffle_positions};
use crate::types::{Pos, Resource, ResourceKind, Tile, WorldMap};

verus! {

/// The fewest units a deposit starts with.
pub const MIN_RESOURCE_QTY: u32 = 50;

/// The most units a deposit starts with.
pub const MAX_RESOURCE_QTY: u32 = 200;

/// How far, in each direction, the base keeps its surroundings clear.
pub const BASE_CLEAR_RADIUS: usize = 2;

/// `pos` lies in the square around `base_pos` that is kept free of obstacles.
pub open spec fn spec_in_base_clear_zone(pos: Pos, base_pos: Pos) -> bool {
    &&& -(BASE_CLEAR_RADIUS as int) <= pos.x - base_pos.x <= BASE_CLEAR_RADIUS
    &&& -(BASE_CLEAR_RADIUS as int) <= pos.y - base_pos.y <= BASE_CLEAR_RADIUS
}

/// Whether `pos` lies in the square around `base_pos` kept free of obstacles.
pub fn is_in_base_clear_zone(pos: Pos, base_pos: Pos) -> (r: bool)
    ensures
        r == spec_in_base_clear_zone(pos, base_pos),
{
    let dx = if pos.x >= base_pos.x {
        pos.x - base_pos.x
    } else {
        base_pos.x - pos.x
    };
    let dy = if pos.y >= base_pos.y {
        pos.y - base_pos.y
    } else {
        base_pos.y - pos.y
    };
    dx <= BASE_CLEAR_RADIUS && dy <= BASE_CLEAR_RADIUS
}

/// The base of a `width` by `height` map: its centre.
pub open spec fn center(width: usize, height: usize) -> Pos {
    Pos { x: width / 2, y: height / 2 }
}

/// The ground of the map before deposits are placed: the base at the centre,
/// an obstacle where `obstacles` says so outside the clear square around
/// the base, and empty ground elsewhere.
pub open spec fn terrain(width: usize, height: usize, obstacles: Seq<Vec<bool>>, p: Pos) -> Tile {
    if p == center(width, height) {
        Tile::Base
    } else if !spec_in_base_clear_zone(p, center(width, height)) && obstacles[p.y as int]@[p.x as int] {
        Tile::Obstacle
    } else {
        Tile::Empty
    }
}

/// The kind of the `i`-th deposit placed: energy for the first
/// `energy_count`, crystal after.
pub open spec fn kind_for(i: int, energy_count: usize) -> ResourceKind {
    if i < energy_count {
        ResourceKind::Energy
    } else {
        ResourceKind::Crystal
    }
}

proof fn lemma_permutation_keeps(a: Seq<Pos>, b: Seq<Pos>)
    requires
        a.to_multiset() == b.to_multiset(),
        a.no_duplicates(),
    ensures
        b.no_duplicates(),
        b.len() == a.len(),
        forall|x: Pos| a.contains(x) <==> b.contains(x),
{
    broadcast use vstd::seq_lib::group_to_multiset_ensures;

    a.to_multiset_ensures();
    b.to_multiset_ensures();
    a.lemma_multiset_has_no_duplicates();
    b.lemma_multiset_has_no_duplicates_conv();
    assert forall|x: Pos| a.contains(x) <==> b.contains(x) by {
        assert(a.contains(x) <==> a.to_multiset().count(x) > 0);
        assert(b.contains(x) <==> b.to_multiset().count(x) > 0);
    }
}

/// Builds a map of `width` by `height` whose obstacles stand where
/// `obstacles` holds `true`, except around the base, which sits at the
/// centre with its surroundings clear. Then up to
/// `energy_count + crystal_count` deposits go on empty cells drawn at random
/// (from a generator seeded with `seed + 1`), energy first, each with
/// between `MIN_RESOURCE_QTY` and `MAX_RESOURCE_QTY` units drawn at random.
pub fn generate_map_with_obstacles(
    width: usize,
    height: usize,
    seed: u32,
    energy_count: usize,
    crystal_count: usize,
    obstacles: &Vec<Vec<bool>>,
) -> (map: WorldMap)
    requires
        width > 0,
        height > 0,
        obstacles@.len() == height,
        forall|y: int| 0 <= y < height ==> #[trigger] obstacles@[y]@.len() == width,
        energy_count + crystal_count <= usize::MAX,
    ensures
        map.wf(),
        map.width == width,
        map.height == height,
        map.base_pos == center(width, height),
        map.tile(map.base_pos) == Tile::Base,
        forall|p: Pos|
            map.spec_in_bounds(p) && !map.resources@.contains_key(p) ==> #[trigger] map.tile(p) == terrain(
                width,
                height,
                obstacles@,
                p,
            ),
        forall|p: Pos| #[trigger]
            map.resources@.contains_key(p) ==> map.spec_in_bounds(p) && terrain(width, height, obstacles@, p)
                == Tile::Empty && map.tile(p) == Tile::Resource(map.resources@[p].kind),
        map.resources.entries().len() <= energy_count + crystal_count,
        forall|i: int|
            0 <= i < map.resources.entries().len() ==> (#[trigger] map.resources.entries()[i]).1.kind
                == kind_for(i, energy_count) && MIN_RESOURCE_QTY <= map.resources.entries()[i].1.quantity
                <= MAX_RESOURCE_QTY,
        map.resources.entries().len() < energy_count + crystal_count ==> forall|p: Pos|
            map.spec_in_bounds(p) && terrain(width, height, obstacles@, p) == Tile::Empty
                ==> #[trigger] map.resources@.contains_key(p),
{
    let base_pos = Pos { x: width / 2, y: height / 2 };
    let ghost obs = obstacles@;
    let mut tiles: Vec<Vec<Tile>> = Vec::new();
    let mut y: usize = 0;
    while y < height
        invariant
            obs == obstacles@,
            obstacles@.len() == height,
            forall|j: int| 0 <= j < height ==> #[trigger] obstacles@[j]@.len() == width,
            base_pos == center(width, height),
            y <= height,
            tiles@.len() == y,
            forall|j: int| 0 <= j < y ==> #[trigger] tiles@[j]@.len() == width,
            forall|p: Pos|
                p.y < y && p.x < width && p != base_pos ==> #[trigger] tiles@[p.y as int]@[p.x as int]
                    == terrain(width, height, obs, p),
        decreases height - y,
    {
        let mut row: Vec<Tile> = Vec::new();
        let mut x: usize = 0;
        while x < width
            invariant
                obs == obstacles@,
                obstacles@.len() == height,
                forall|j: int| 0 <= j < height ==> #[trigger] obstacles@[j]@.len() == width,
                base_pos == center(width, height),
                y < height,
                x <= width,
                row@.len() == x,
                forall|i: int|
                    0 <= i < x && (Pos { x: i as usize, y }) != base_pos ==> #[trigger] row@[i]
                        == terrain(width, height, obs, Pos { x: i as usize, y }),
            decreases width - x,
        {
            let pos = Pos { x, y };
            let t = if is_in_base_clear_zone(pos, base_pos) {
                Tile::Empty
            } else if obstacles[y][x] {
                Tile::Obstacle
            } else {
                Tile::Empty
            };
            row.push(t);
            x = x + 1;
        }
        let ghost old_tiles = tiles@;
        tiles.push(row);
        proof {
            assert forall|p: Pos|
                p.y < y + 1 && p.x < width && p != base_pos implies #[trigger] tiles@[p.y as int]@[p.x as int]
                == terrain(width, height, obs, p) by {
                if p.y < y {
                    assert(tiles@[p.y as int] == old_tiles[p.y as int]);
                } else {
                    assert(p == Pos { x: p.x as usize, y });
                }
            }
        }
        y = y + 1;
    }
    let mut map = WorldMap { width, height, tiles, base_pos, resources: ResourceMap::new() };
    map.set_tile(base_pos, Tile::Base);
    assert forall|p: Pos| map.spec_in_bounds(p) implies #[trigger] map.tile(p) == terrain(width, height, obs, p) by {}

    // The empty cells, row by row.
    let mut empty_positions: Vec<Pos> = Vec::new();
    let mut y: usize = 0;
    while y < height
        invariant
            map.wf(),
            map.width == width,
            map.height == height,
            y <= height,
            forall|p: Pos| map.spec_in_bounds(p) ==> #[trigger] map.tile(p) == terrain(width, height, obs, p),
            empty_positions@.no_duplicates(),
            forall|k: int|
                0 <= k < empty_positions@.len() ==> map.spec_in_bounds(#[trigger] empty_positions@[k])
                    && empty_positions@[k].y < y && map.tile(empty_positions@[k]) == Tile::Empty,
            forall|p: Pos|
                map.spec_in_bounds(p) && p.y < y && map.tile(p) == Tile::Empty
                    ==> #[trigger] empty_positions@.contains(p),
        decreases height - y,
    {
        let mut x: usize = 0;
        while x < width
            invariant
                map.wf(),
                map.width == width,
                map.height == height,
                y < height,
                x <= width,
                forall|p: Pos| map.spec_in_bounds(p) ==> #[trigger] map.tile(p) == terrain(width, height, obs, p),
                empty_positions@.no_duplicates(),
                forall|k: int|
                    0 <= k < empty_positions@.len() ==> map.spec_in_bounds(#[trigger] empty_positions@[k])
                        && (empty_positions@[k].y < y || (empty_positions@[k].y == y
                        && empty_positions@[k].x < x)) && map.tile(empty_positions@[k]) == Tile::Empty,
                forall|p: Pos|
                    map.spec_in_bounds(p) && (p.y < y || (p.y == y && p.x < x)) && map.tile(p) == Tile::Empty
                        ==> #[trigger] empty_positions@.contains(p),
            decreases width - x,
        {
            if map.tiles[y][x] == Tile::Empty {
                let ghost before = empty_positions@;
                empty_positions.push(Pos { x, y });
                proof {
                    assert forall|p: Pos|
                        map.spec_in_bounds(p) && (p.y < y || (p.y == y && p.x < x + 1)) && map.tile(p)
                            == Tile::Empty implies #[trigger] empty_positions@.contains(p) by {
                        if p.y == y && p.x == x {
                            assert(empty_positions@[before.len() as int] == p);
                        } else {
                            assert(before.contains(p));
                            let k = choose|k: int| 0 <= k < before.len() && before[k] == p;
                            assert(empty_positions@[k] == p);
                        }
                    }
                    assert forall|a: int, b: int|
                        0 <= a < empty_positions@.len() && 0 <= b < empty_positions@.len() && a != b implies
                        empty_positions@[a] != empty_positions@[b] by {
                        if a < before.len() && b < before.len() {
                            assert(empty_positions@[a] == before[a]);
                            assert(empty_positions@[b] == before[b]);
                        } else if a < before.len() {
                            assert(empty_positions@[a] == before[a]);
                        } else if b < before.len() {
                            assert(empty_positions@[b] == before[b]);
                        }
                    }
                }
            }
            x = x + 1;
        }
        y = y + 1;
    }

    let mut rng = seeded_rng(seed as u64 + 1);
    let ghost unshuffled = empty_positions@;
    shuffle_positions(&mut empty_positions, &mut rng);
    proof {
        lemma_permutation_keeps(unshuffled, empty_positions@);
        assert forall|k: int| 0 <= k < empty_positions@.len() implies map.spec_in_bounds(
            #[trigger] empty_positions@[k],
        ) && terrain(width, height, obs, empty_positions@[k]) == Tile::Empty by {
            assert(empty_positions@.contains(empty_positions@[k]));
            assert(unshuffled.contains(empty_positions@[k]));
            let j = choose|j: int| 0 <= j < unshuffled.len() && unshuffled[j] == empty_positions@[k];
            assert(map.spec_in_bounds(unshuffled[j]));
        }
        assert forall|p: Pos|
            map.spec_in_bounds(p) && terrain(width, height, obs, p) == Tile::Empty
                implies #[trigger] empty_positions@.contains(p) by {
            assert(map.tile(p) == Tile::Empty);
            assert(unshuffled.contains(p));
        }
    }
    let total_resources = energy_count + crystal_count;
    let placement_count = if total_resources < empty_positions.len() {
        total_resources
    } else {
        empty_positions.len()
    };

    let mut i: usize = 0;
    while i < placement_count
        invariant
            map.wf(),
            map.width == width,
            map.height == height,
            map.base_pos == base_pos,
            base_pos == center(width, height),
            placement_count <= empty_positions@.len(),
            placement_count <= total_resources,
            total_resources == energy_count + crystal_count,
            i <= placement_count,
            empty_positions@.no_duplicates(),
            forall|k: int|
                0 <= k < empty_positions@.len() ==> map.spec_in_bounds(#[trigger] empty_positions@[k])
                    && terrain(width, height, obs, empty_positions@[k]) == Tile::Empty,
            forall|p: Pos|
                map.spec_in_bounds(p) && terrain(width, height, obs, p) == Tile::Empty
                    ==> #[trigger] empty_positions@.contains(p),
            map.resources.entries().len() == i,
            forall|j: int|
                0 <= j < i ==> (#[trigger] map.resources.entries()[j]).0 == empty_positions@[j]
                    && map.resources.entries()[j].1.kind == kind_for(j, energy_count)
                    && MIN_RESOURCE_QTY <= map.resources.entries()[j].1.quantity <= MAX_RESOURCE_QTY
                    && map.tile(empty_positions@[j]) == Tile::Resource(kind_for(j, energy_count)),
            forall|p: Pos|
                map.spec_in_bounds(p) && !map.resources@.contains_key(p) ==> #[trigger] map.tile(p)
                    == terrain(width, height, obs, p),
            forall|p: Pos| #[trigger]
                map.resources@.contains_key(p) ==> exists|j: int|
                    0 <= j < i && (#[trigger] empty_positions@[j]) == p,
        decreases placement_count - i,
    {
        let pos = empty_positions[i];
        let kind = if i < energy_count {
            ResourceKind::Energy
        } else {
            ResourceKind::Crystal
        };
        let quantity = random_between(&mut rng, MIN_RESOURCE_QTY, MAX_RESOURCE_QTY);
        let ghost before = map;
        proof {
            assert(map.spec_in_bounds(pos));
            if map.resources@.contains_key(pos) {
                let j = choose|j: int| 0 <= j < i && (#[trigger] empty_positions@[j]) == pos;
                assert(empty_positions@[j] == empty_positions@[i as int]);
            }
        }
        map.set_tile(pos, Tile::Resource(kind));
        let ghost mid = map;
        map.resources.insert(pos, Resource { kind, quantity });
        proof {
            assert forall|p: Pos| map.spec_in_bounds(p) implies #[trigger] map.tile(p) == mid.tile(p) by {}
            assert forall|j: int|
                0 <= j < i + 1 implies (#[trigger] map.resources.entries()[j]).0 == empty_positions@[j]
                && map.resources.entries()[j].1.kind == kind_for(j, energy_count)
                && MIN_RESOURCE_QTY <= map.resources.entries()[j].1.quantity <= MAX_RESOURCE_QTY
                && map.tile(empty_positions@[j]) == Tile::Resource(kind_for(j, energy_count)) by {
                if j < i {
                    assert(map.resources.entries()[j] == before.resources.entries()[j]);
                    assert(empty_positions@[j] != pos);
                    assert(map.tile(empty_positions@[j]) == mid.tile(empty_positions@[j]));
                    assert(mid.tile(empty_positions@[j]) == before.tile(empty_positions@[j]));
                }
            }
            assert forall|p: Pos|
                map.spec_in_bounds(p) && !map.resources@.contains_key(p) implies #[trigger] map.tile(p)
                == terrain(width, height, obs, p) by {
                assert(p != pos);
                assert(map.tile(p) == mid.tile(p));
                assert(mid.tile(p) == before.tile(p));
            }
            assert forall|p: Pos| #[trigger] map.resources@.contains_key(p) implies exists|j: int|
                0 <= j < i + 1 && (#[trigger] empty_positions@[j]) == p by {
                if p == pos {
                    assert(empty_positions@[i as int] == p);
                } else {
                    assert(before.resources@.contains_key(p));
                }
            }
        }
        i = i + 1;
    }
    proof {
        assert forall|p: Pos| #[trigger] map.resources@.contains_key(p) implies map.spec_in_bounds(p)
            && terrain(width, height, obs, p) == Tile::Empty && map.tile(p) == Tile::Resource(
            map.resources@[p].kind,
        ) by {
            let j = choose|j: int| 0 <= j < i && (#[trigger] empty_positions@[j]) == p;
            let e = map.resources.entries()[j];
            assert(e.0 == p);
            assert(map.resources@[e.0] == e.1);
        }
        if placement_count < total_resources {
            assert forall|p: Pos|
                map.spec_in_bounds(p) && terrain(width, height, obs, p) == Tile::Empty
                    implies #[trigger] map.resources@.contains_key(p) by {
                assert(empty_positions@.contains(p));
                let k = choose|k: int| 0 <= k < empty_positions@.len() && empty_positions@[k] == p;
                let e = map.resources.entries()[k];
                assert(e.0 == empty_positions@[k]);
            }
        }
    }
    map
}

/// The characters that show the map, row by row.
pub fn ascii_rows(map: &WorldMap) -> (r: Vec<Vec<char>>)
    requires
        map.wf(),
    ensures
        r@.len() == map.height,
        forall|y: int| 0 <= y < map.height ==> #[trigger] r@[y]@.len() == map.width,
        forall|p: Pos| map.spec_in_bounds(p) ==> #[trigger] r@[p.y as int]@[p.x as int] == map.spec_char_at(p),
{
    let mut rows: Vec<Vec<char>> = Vec::new();
    let mut y: usize = 0;
    while y < map.height
        invariant
            map.wf(),
            y <= map.height,
            rows@.len() == y,
            forall|j: int| 0 <= j < y ==> #[trigger] rows@[j]@.len() == map.width,
            forall|p: Pos|
                map.spec_in_bounds(p) && p.y < y ==> #[trigger] rows@[p.y as int]@[p.x as int]
                    == map.spec_char_at(p),
        decreases map.height - y,
    {
        let mut row: Vec<char> = Vec::new();
        let mut x: usize = 0;
        while x < map.width
            invariant
                map.wf(),
                y < map.height,
                x <= map.width,
                row@.len() == x,
                forall|i: int| 0 <= i < x ==> #[trigger] row@[i] == map.spec_char_at(Pos { x: i as usize, y }),
            decreases map.width - x,
        {
            row.push(map.char_at(Pos { x, y }));
            x = x + 1;
        }
        let ghost before = rows@;
        rows.push(row);
        proof {
            assert forall|p: Pos|
                map.spec_in_bounds(p) && p.y < y + 1 implies #[trigger] rows@[p.y as int]@[p.x as int]
                == map.spec_char_at(p) by {
                if p.y < y {
                    assert(rows@[p.y as int] == before[p.y as int]);
                } else {
                    assert(p == Pos { x: p.x as usize, y });
                }
            }
        }
        y = y + 1;
    }
    rows
}

} // verus!
