use resource_collection_simulation::{
    Cell, CellColor, Pos, PosSet, Resource, ResourceKind, ResourceMap, RobotKind, RobotState, Tile,
    UIRenderer, WorldMap,
};

fn sample() -> WorldMap {
    let mut tiles = vec![vec![Tile::Empty; 3]; 2];
    tiles[0][1] = Tile::Obstacle;
    tiles[0][2] = Tile::Base;
    tiles[1][0] = Tile::Resource(ResourceKind::Energy);
    tiles[1][1] = Tile::Resource(ResourceKind::Crystal);
    WorldMap {
        width: 3,
        height: 2,
        tiles,
        base_pos: Pos { x: 2, y: 0 },
        resources: ResourceMap::new(),
    }
}

#[test]
fn tiles_and_characters() {
    let map = sample();
    assert!(map.in_bounds(Pos { x: 2, y: 1 }));
    assert!(!map.in_bounds(Pos { x: 3, y: 0 }));
    assert!(!map.in_bounds(Pos { x: 0, y: 2 }));
    assert_eq!(map.get_tile(Pos { x: 1, y: 0 }), Some(Tile::Obstacle));
    assert_eq!(map.get_tile(Pos { x: 5, y: 5 }), None);
    assert!(!map.is_walkable(Pos { x: 1, y: 0 }));
    assert!(map.is_walkable(Pos { x: 2, y: 0 }));
    assert!(map.is_walkable(Pos { x: 0, y: 1 }));
    assert!(!map.is_walkable(Pos { x: 0, y: 9 }));
    let chars: String = [
        Pos { x: 0, y: 0 },
        Pos { x: 1, y: 0 },
        Pos { x: 2, y: 0 },
        Pos { x: 0, y: 1 },
        Pos { x: 1, y: 1 },
        Pos { x: 3, y: 3 },
    ]
    .iter()
    .map(|p| map.char_at(*p))
    .collect();
    assert_eq!(chars, ".O#EC ");
}

#[test]
fn resource_map_keeps_order_and_replaces() {
    let mut m = ResourceMap::new();
    let r1 = Resource {
        kind: ResourceKind::Energy,
        quantity: 1,
    };
    let r2 = Resource {
        kind: ResourceKind::Crystal,
        quantity: 2,
    };
    m.insert(Pos { x: 5, y: 5 }, r1);
    m.insert(Pos { x: 1, y: 1 }, r2);
    m.insert(Pos { x: 5, y: 5 }, r2);
    assert_eq!(m.len(), 2);
    assert_eq!(m.entry_at(0), (Pos { x: 5, y: 5 }, r2));
    assert_eq!(m.entry_at(1), (Pos { x: 1, y: 1 }, r2));
    m.remove(&Pos { x: 5, y: 5 });
    assert_eq!(m.len(), 1);
    assert_eq!(m.get(&Pos { x: 5, y: 5 }), None);
    assert_eq!(m.entry_at(0), (Pos { x: 1, y: 1 }, r2));
    m.remove(&Pos { x: 9, y: 9 });
    assert_eq!(m.len(), 1);
}

#[test]
fn pos_set_insert_and_remove() {
    let mut s = PosSet::default();
    assert!(s.insert(Pos { x: 0, y: 0 }));
    assert!(!s.insert(Pos { x: 0, y: 0 }));
    assert!(s.insert(Pos { x: 0, y: 1 }));
    assert_eq!(s.len(), 2);
    s.remove(&Pos { x: 0, y: 0 });
    assert!(!s.contains(&Pos { x: 0, y: 0 }));
    assert!(s.contains(&Pos { x: 0, y: 1 }));
    assert!(!s.is_empty());
}

#[test]
fn renderer_draws_robots_over_tiles() {
    let map = sample();
    let robots = vec![
        RobotState {
            id: 0,
            kind: RobotKind::Collector,
            pos: Pos { x: 2, y: 0 },
            carrying: None,
        },
        RobotState {
            id: 1,
            kind: RobotKind::Scout,
            pos: Pos { x: 2, y: 0 },
            carrying: None,
        },
        RobotState {
            id: 2,
            kind: RobotKind::Collector,
            pos: Pos { x: 2, y: 1 },
            carrying: Some((ResourceKind::Energy, 1)),
        },
    ];
    let cells = UIRenderer::new().map_cells(&map, &robots);
    assert_eq!(cells.len(), 2);
    assert_eq!(
        cells[0],
        vec![
            Cell {
                symbol: '.',
                color: CellColor::DarkGray
            },
            Cell {
                symbol: 'O',
                color: CellColor::LightCyan
            },
            Cell {
                symbol: 'x',
                color: CellColor::Red
            },
        ]
    );
    assert_eq!(
        cells[1],
        vec![
            Cell {
                symbol: 'E',
                color: CellColor::Green
            },
            Cell {
                symbol: 'C',
                color: CellColor::LightMagenta
            },
            Cell {
                symbol: 'o',
                color: CellColor::Magenta
            },
        ]
    );
}
