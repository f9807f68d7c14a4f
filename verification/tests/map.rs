use noise::{NoiseFn, Perlin};
use resource_collection_simulation::{
    ascii_rows, generate_map_with_obstacles, is_in_base_clear_zone, Pos, ResourceKind, Tile,
    WorldMap, MAX_RESOURCE_QTY, MIN_RESOURCE_QTY,
};

/// Obstacles on every cell whose column and row are both odd.
fn checkered(width: usize, height: usize) -> Vec<Vec<bool>> {
    (0..height)
        .map(|y| (0..width).map(|x| x % 2 == 1 && y % 2 == 1).collect())
        .collect()
}

/// Obstacles where Perlin noise rises above `threshold`, as the program draws them.
fn perlin_mask(width: usize, height: usize, seed: u32, scale: f64, threshold: f64) -> Vec<Vec<bool>> {
    let perlin = Perlin::new(seed);
    (0..height)
        .map(|y| {
            (0..width)
                .map(|x| perlin.get([x as f64 * scale, y as f64 * scale]) > threshold)
                .collect()
        })
        .collect()
}

fn default_map() -> WorldMap {
    generate_map_with_obstacles(80, 24, 42, 10, 10, &checkered(80, 24))
}

#[test]
fn map_has_base_at_center() {
    let map = generate_map_with_obstacles(40, 20, 42, 10, 10, &checkered(40, 20));
    assert_eq!(map.base_pos, Pos { x: 20, y: 10 });
    assert_eq!(map.get_tile(map.base_pos), Some(Tile::Base));
}

#[test]
fn resources_have_valid_quantities() {
    let map = default_map();
    for i in 0..map.resources.len() {
        let (_, resource) = map.resources.entry_at(i);
        assert!(resource.quantity >= MIN_RESOURCE_QTY);
        assert!(resource.quantity <= MAX_RESOURCE_QTY);
    }
}

#[test]
fn no_resources_on_obstacles_or_base() {
    let map = default_map();
    for y in 0..map.height {
        for x in 0..map.width {
            let tile = map.tiles[y][x];
            if matches!(tile, Tile::Resource(_)) {
                assert_ne!(tile, Tile::Obstacle);
                assert_ne!(tile, Tile::Base);
            }
        }
    }
}

#[test]
fn deposits_match_their_tiles_and_kinds() {
    let map = default_map();
    assert_eq!(map.resources.len(), 20);
    for i in 0..map.resources.len() {
        let (pos, resource) = map.resources.entry_at(i);
        let expected = if i < 10 {
            ResourceKind::Energy
        } else {
            ResourceKind::Crystal
        };
        assert_eq!(resource.kind, expected);
        assert_eq!(map.tiles[pos.y][pos.x], Tile::Resource(expected));
    }
    let mut count = 0;
    for row in &map.tiles {
        for t in row {
            if matches!(t, Tile::Resource(_)) {
                count += 1;
            }
        }
    }
    assert_eq!(count, 20);
}

#[test]
fn obstacles_follow_the_mask_outside_the_base_zone() {
    let map = default_map();
    let mask = checkered(80, 24);
    let base = map.base_pos;
    for y in 0..24 {
        for x in 0..80 {
            let pos = Pos { x, y };
            let t = map.tiles[y][x];
            if pos == base {
                assert_eq!(t, Tile::Base);
            } else if is_in_base_clear_zone(pos, base) {
                assert_ne!(t, Tile::Obstacle);
            } else {
                assert_eq!(t == Tile::Obstacle, mask[y][x]);
            }
        }
    }
}

#[test]
fn too_few_empty_cells_fill_them_all() {
    // 3 by 1, all clear around the base: two empty cells for five deposits
    let map = generate_map_with_obstacles(3, 1, 7, 3, 2, &checkered(3, 1));
    assert_eq!(map.resources.len(), 2);
    assert_eq!(map.tiles[0][1], Tile::Base);
    assert!(matches!(map.tiles[0][0], Tile::Resource(ResourceKind::Energy)));
    assert!(matches!(map.tiles[0][2], Tile::Resource(ResourceKind::Energy)));
}

#[test]
fn same_seed_same_map() {
    let a = default_map();
    let b = default_map();
    assert_eq!(a.tiles, b.tiles);
    for i in 0..a.resources.len() {
        assert_eq!(a.resources.entry_at(i), b.resources.entry_at(i));
    }
}

#[test]
fn deposits_are_spread_and_quantities_vary() {
    let map = default_map();
    // the empty cells in row-major order begin at the top left; a shuffle
    // does not leave the first twenty of them in place
    let mut first_empty = Vec::new();
    for y in 0..map.height {
        for x in 0..map.width {
            if first_empty.len() < 20 && !(x % 2 == 1 && y % 2 == 1) {
                first_empty.push(Pos { x, y });
            }
        }
    }
    let placed: Vec<Pos> = (0..map.resources.len())
        .map(|i| map.resources.entry_at(i).0)
        .collect();
    assert_ne!(placed, first_empty);
    let q0 = map.resources.entry_at(0).1.quantity;
    assert!((0..map.resources.len()).any(|i| map.resources.entry_at(i).1.quantity != q0));
}

#[test]
fn clear_zone_is_a_five_by_five_square() {
    let base = Pos { x: 10, y: 10 };
    assert!(is_in_base_clear_zone(Pos { x: 8, y: 12 }, base));
    assert!(is_in_base_clear_zone(Pos { x: 12, y: 8 }, base));
    assert!(!is_in_base_clear_zone(Pos { x: 7, y: 10 }, base));
    assert!(!is_in_base_clear_zone(Pos { x: 10, y: 13 }, base));
}

#[test]
fn ascii_rows_show_every_tile() {
    let map = generate_map_with_obstacles(5, 5, 1, 0, 0, &checkered(5, 5));
    let rows = ascii_rows(&map);
    let text: Vec<String> = rows.iter().map(|r| r.iter().collect()).collect();
    assert_eq!(text, vec![".....", ".....", "..#..", ".....", "....."]);
    assert_eq!(map.char_at(Pos { x: 9, y: 0 }), ' ');
}

#[test]
fn perlin_map_keeps_its_invariants() {
    let mask = perlin_mask(80, 24, 42, 0.12, 0.15);
    let map = generate_map_with_obstacles(80, 24, 42, 10, 10, &mask);
    let base = map.base_pos;
    assert_eq!(base, Pos { x: 40, y: 12 });
    let mut empty_or_deposit = 0;
    let mut deposit_tiles = 0;
    for y in 0..24 {
        for x in 0..80 {
            let pos = Pos { x, y };
            let t = map.tiles[y][x];
            if pos == base {
                assert_eq!(t, Tile::Base);
            } else if is_in_base_clear_zone(pos, base) {
                assert_ne!(t, Tile::Obstacle);
            } else {
                assert_eq!(t == Tile::Obstacle, mask[y][x]);
            }
            match t {
                Tile::Resource(kind) => {
                    deposit_tiles += 1;
                    empty_or_deposit += 1;
                    assert_eq!(map.resources.get(&pos).map(|r| r.kind), Some(kind));
                }
                Tile::Empty => {
                    empty_or_deposit += 1;
                    assert!(!map.resources.contains_key(&pos));
                }
                _ => assert!(!map.resources.contains_key(&pos)),
            }
        }
    }
    let placed = map.resources.len();
    assert_eq!(placed, std::cmp::min(20, empty_or_deposit));
    assert_eq!(deposit_tiles, placed);
    for i in 0..placed {
        let (_, resource) = map.resources.entry_at(i);
        let expected = if i < 10 { ResourceKind::Energy } else { ResourceKind::Crystal };
        assert_eq!(resource.kind, expected);
        assert!(MIN_RESOURCE_QTY <= resource.quantity && resource.quantity <= MAX_RESOURCE_QTY);
    }
}
