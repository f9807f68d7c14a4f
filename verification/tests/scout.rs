use resource_collection_simulation::{
    Pos, Resource, ResourceKind, ResourceMap, RobotMessage, Scout, Tile, WorldMap,
};

fn make_map(width: usize, height: usize) -> WorldMap {
    WorldMap {
        width,
        height,
        tiles: vec![vec![Tile::Empty; width]; height],
        base_pos: Pos { x: 0, y: 0 },
        resources: ResourceMap::new(),
    }
}

#[test]
fn scout_stays_in_bounds() {
    let map = make_map(5, 5);
    let mut scout = Scout::new(0, &map);
    let mut rng = rand::rng();
    let mut outbox = Vec::new();
    for _ in 0..20 {
        let pos = scout.step(&map, &mut rng, &mut outbox);
        assert!(pos.x < 5 && pos.y < 5);
    }
}

#[test]
fn scout_reports_resource_only_once() {
    let mut tiles = vec![vec![Tile::Empty; 3]; 3];
    tiles[0][1] = Tile::Resource(ResourceKind::Energy);
    let mut resources = ResourceMap::new();
    resources.insert(
        Pos { x: 1, y: 0 },
        Resource {
            kind: ResourceKind::Energy,
            quantity: 100,
        },
    );
    let map = WorldMap {
        width: 3,
        height: 3,
        tiles,
        base_pos: Pos { x: 0, y: 0 },
        resources,
    };
    let mut scout = Scout::new(0, &map);
    let mut rng = rand::rng();
    let mut outbox = Vec::new();
    for _ in 0..5 {
        scout.step(&map, &mut rng, &mut outbox);
    }
    let count = outbox
        .iter()
        .filter(|m| matches!(m, RobotMessage::DiscoveredResource { .. }))
        .count();
    assert_eq!(count, 1);
}

#[test]
fn scan_reports_around_the_scout() {
    let mut map = make_map(3, 3);
    map.tiles[0][0] = Tile::Obstacle;
    map.tiles[2][2] = Tile::Resource(ResourceKind::Crystal);
    map.resources.insert(
        Pos { x: 2, y: 2 },
        Resource {
            kind: ResourceKind::Crystal,
            quantity: 60,
        },
    );
    map.tiles[1][0] = Tile::Resource(ResourceKind::Energy);
    map.base_pos = Pos { x: 1, y: 1 };
    let scout = Scout::new(3, &map);
    assert_eq!(
        scout.scan(&map),
        vec![
            RobotMessage::DiscoveredObstacle { pos: Pos { x: 0, y: 0 } },
            // a deposit tile without an entry in the map's deposits counts one unit
            RobotMessage::DiscoveredResource {
                pos: Pos { x: 0, y: 1 },
                resource: Resource {
                    kind: ResourceKind::Energy,
                    quantity: 1
                }
            },
            RobotMessage::DiscoveredResource {
                pos: Pos { x: 2, y: 2 },
                resource: Resource {
                    kind: ResourceKind::Crystal,
                    quantity: 60
                }
            },
        ]
    );
}

#[test]
fn scout_avoids_known_obstacles_and_moves_one_step() {
    // a corridor: the only open cell next to the scout is to its right
    let mut map = make_map(3, 1);
    map.tiles[0][0] = Tile::Obstacle;
    map.base_pos = Pos { x: 1, y: 0 };
    let mut scout = Scout::new(0, &map);
    let mut rng = rand::rng();
    let mut outbox = Vec::new();
    let pos = scout.step(&map, &mut rng, &mut outbox);
    assert_eq!(pos, Pos { x: 2, y: 0 });
    assert_eq!(
        outbox,
        vec![RobotMessage::DiscoveredObstacle { pos: Pos { x: 0, y: 0 } }]
    );
}

#[test]
fn scout_in_the_open_always_moves() {
    let map = make_map(5, 5);
    let mut scout = Scout::new(0, &map);
    scout.pos = Pos { x: 2, y: 2 };
    let mut rng = rand::rng();
    let mut outbox = Vec::new();
    for _ in 0..10 {
        let before = scout.pos;
        let after = scout.step(&map, &mut rng, &mut outbox);
        let d = (after.x as i64 - before.x as i64).abs() + (after.y as i64 - before.y as i64).abs();
        assert_eq!(d, 1);
    }
    assert!(outbox.is_empty());
}

#[test]
fn boxed_in_scout_stays_put() {
    let mut map = make_map(1, 1);
    map.base_pos = Pos { x: 0, y: 0 };
    let mut scout = Scout::new(0, &map);
    let mut rng = rand::rng();
    let mut outbox = Vec::new();
    assert_eq!(scout.step(&map, &mut rng, &mut outbox), Pos { x: 0, y: 0 });
    let cands = scout.walkable_neighbors(&map);
    assert!(cands.is_empty());
    assert_eq!(scout.pick_move(&mut rng, &cands), None);
}

#[test]
fn move_to_takes_the_chosen_candidate() {
    let map = make_map(3, 3);
    let mut scout = Scout::new(0, &map);
    let candidates = vec![Pos { x: 0, y: 1 }, Pos { x: 2, y: 1 }, Pos { x: 1, y: 0 }];
    scout.move_to(&candidates, 1);
    assert_eq!(scout.pos, Pos { x: 2, y: 1 });
    scout.move_to(&candidates, 2);
    assert_eq!(scout.pos, Pos { x: 1, y: 0 });
}
