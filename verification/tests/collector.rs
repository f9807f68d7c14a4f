use resource_collection_simulation::{
    bfs, get_neighbors, Collector, CollectorState, Pos, PosSet, Resource, ResourceKind, ResourceMap,
    RobotMessage, Tile, WorldMap,
};

fn make_map(width: usize, height: usize) -> WorldMap {
    WorldMap {
        width,
        height,
        tiles: vec![vec![Tile::Empty; width]; height],
        base_pos: Pos { x: 0, y: 0 },
        resources: ResourceMap::new(),
    }
}

fn is_walk(map: &WorldMap, start: Pos, path: &[Pos]) -> bool {
    let mut prev = start;
    for p in path {
        let dx = (p.x as i64 - prev.x as i64).abs();
        let dy = (p.y as i64 - prev.y as i64).abs();
        if dx + dy != 1 || !map.in_bounds(*p) || map.tiles[p.y][p.x] == Tile::Obstacle {
            return false;
        }
        prev = *p;
    }
    true
}

#[test]
fn test_bfs_chemin_simple() {
    let map = make_map(5, 1);
    let chemin = bfs(&map, Pos { x: 0, y: 0 }, Pos { x: 4, y: 0 });
    assert_eq!(
        chemin,
        vec![
            Pos { x: 1, y: 0 },
            Pos { x: 2, y: 0 },
            Pos { x: 3, y: 0 },
            Pos { x: 4, y: 0 },
        ]
    );
}

#[test]
fn test_bfs_contourne_obstacle() {
    let mut map = make_map(3, 3);
    map.tiles[0][1] = Tile::Obstacle;
    let chemin = bfs(&map, Pos { x: 0, y: 0 }, Pos { x: 2, y: 0 });
    assert!(!chemin.is_empty());
    assert!(!chemin.contains(&Pos { x: 1, y: 0 }));
    assert_eq!(*chemin.last().unwrap(), Pos { x: 2, y: 0 });
}

#[test]
fn test_bfs_chemin_le_plus_court() {
    let map = make_map(3, 3);
    let chemin = bfs(&map, Pos { x: 0, y: 0 }, Pos { x: 2, y: 2 });
    assert_eq!(chemin.len(), 4);
}

#[test]
fn test_tick_avance_dune_case() {
    let mut collector = Collector::new(0, Pos { x: 0, y: 0 });
    collector.path = vec![Pos { x: 1, y: 0 }, Pos { x: 2, y: 0 }];
    let arrive = collector.tick();
    assert_eq!(collector.pos, Pos { x: 1, y: 0 });
    assert!(!arrive);
}

#[test]
fn test_tick_derniere_case() {
    let mut collector = Collector::new(0, Pos { x: 0, y: 0 });
    collector.path = vec![Pos { x: 1, y: 0 }];
    let arrive = collector.tick();
    assert_eq!(collector.pos, Pos { x: 1, y: 0 });
    assert!(arrive);
}

#[test]
fn test_tick_chemin_vide() {
    let mut collector = Collector::new(0, Pos { x: 2, y: 2 });
    let arrive = collector.tick();
    assert_eq!(collector.pos, Pos { x: 2, y: 2 });
    assert!(arrive);
}

#[test]
fn test_voisins_centre() {
    let map = make_map(3, 3);
    assert_eq!(get_neighbors(&map, Pos { x: 1, y: 1 }).len(), 4);
}

#[test]
fn test_voisins_coin() {
    let map = make_map(3, 3);
    assert_eq!(get_neighbors(&map, Pos { x: 0, y: 0 }).len(), 2);
}

#[test]
fn test_voisins_bord() {
    let map = make_map(3, 3);
    assert_eq!(get_neighbors(&map, Pos { x: 1, y: 0 }).len(), 3);
}

#[test]
fn test_obstacle_bloque() {
    let mut map = make_map(3, 3);
    map.tiles[1][2] = Tile::Obstacle;
    let neighbors = get_neighbors(&map, Pos { x: 1, y: 1 });
    assert_eq!(neighbors.len(), 3);
    assert!(!neighbors.contains(&Pos { x: 2, y: 1 }));
}

#[test]
fn test_tous_obstacles_autour() {
    let mut map = make_map(3, 3);
    map.tiles[1][0] = Tile::Obstacle;
    map.tiles[1][2] = Tile::Obstacle;
    map.tiles[0][1] = Tile::Obstacle;
    map.tiles[2][1] = Tile::Obstacle;
    assert_eq!(get_neighbors(&map, Pos { x: 1, y: 1 }).len(), 0);
}

#[test]
fn test_step_collecte_et_retourne() {
    let mut map = make_map(3, 1);
    let resource_pos = Pos { x: 2, y: 0 };
    map.tiles[0][2] = Tile::Resource(ResourceKind::Energy);
    let mut resources = ResourceMap::new();
    resources.insert(
        resource_pos,
        Resource {
            kind: ResourceKind::Energy,
            quantity: 10,
        },
    );

    let base_pos = Pos { x: 0, y: 0 };
    let mut claimed = PosSet::new();
    let mut collector = Collector::new(0, base_pos);
    let mut messages: Vec<RobotMessage> = Vec::new();

    messages.extend(collector.step(&map, &resources, base_pos, &Vec::new(), &mut claimed));
    assert!(matches!(collector.state, CollectorState::GoingToResource));

    for _ in 0..3 {
        messages.extend(collector.step(&map, &resources, base_pos, &Vec::new(), &mut claimed));
    }

    assert!(messages
        .iter()
        .any(|m| matches!(m, RobotMessage::CollectedUnit { .. })));
}

#[test]
fn bfs_neighbor_order_and_exact_cells() {
    let map = make_map(3, 3);
    assert_eq!(
        get_neighbors(&map, Pos { x: 1, y: 1 }),
        vec![
            Pos { x: 0, y: 1 },
            Pos { x: 2, y: 1 },
            Pos { x: 1, y: 0 },
            Pos { x: 1, y: 2 },
        ]
    );
}

#[test]
fn bfs_same_start_and_goal_is_empty() {
    let map = make_map(3, 3);
    assert!(bfs(&map, Pos { x: 1, y: 1 }, Pos { x: 1, y: 1 }).is_empty());
}

#[test]
fn bfs_unreachable_goal_is_empty() {
    let mut map = make_map(3, 3);
    map.tiles[0][1] = Tile::Obstacle;
    map.tiles[1][0] = Tile::Obstacle;
    map.tiles[1][1] = Tile::Obstacle;
    assert!(bfs(&map, Pos { x: 0, y: 0 }, Pos { x: 2, y: 2 }).is_empty());
    assert!(bfs(&map, Pos { x: 2, y: 2 }, Pos { x: 0, y: 0 }).is_empty());
}

#[test]
fn bfs_goal_off_the_map_is_empty() {
    let map = make_map(3, 3);
    assert!(bfs(&map, Pos { x: 0, y: 0 }, Pos { x: 7, y: 0 }).is_empty());
}

#[test]
fn bfs_finds_a_shortest_walk_around_a_wall() {
    // A wall across the middle row with a gap on the right.
    let mut map = make_map(5, 3);
    for x in 0..4 {
        map.tiles[1][x] = Tile::Obstacle;
    }
    let start = Pos { x: 0, y: 0 };
    let goal = Pos { x: 0, y: 2 };
    let path = bfs(&map, start, goal);
    assert_eq!(path.len(), 10);
    assert!(is_walk(&map, start, &path));
    assert_eq!(*path.last().unwrap(), goal);
}

#[test]
fn collector_round_trip_unloads_what_it_took() {
    let mut map = make_map(3, 1);
    let resource_pos = Pos { x: 2, y: 0 };
    map.tiles[0][2] = Tile::Resource(ResourceKind::Crystal);
    let mut known = ResourceMap::new();
    known.insert(
        resource_pos,
        Resource {
            kind: ResourceKind::Crystal,
            quantity: 5,
        },
    );
    let base_pos = Pos { x: 0, y: 0 };
    let mut claimed = PosSet::new();
    let mut collector = Collector::new(7, base_pos);
    let mut messages = Vec::new();
    // claim, move twice to reach the deposit, move twice back
    for _ in 0..5 {
        if let Some(m) = collector.step(&map, &known, base_pos, &Vec::new(), &mut claimed) {
            messages.push(m);
        }
    }
    assert!(claimed.contains(&resource_pos));
    assert_eq!(
        messages,
        vec![
            RobotMessage::CollectedUnit {
                pos: resource_pos,
                kind: ResourceKind::Crystal
            },
            RobotMessage::Unloading {
                robot_id: 7,
                kind: ResourceKind::Crystal,
                amount: 1
            },
        ]
    );
    assert_eq!(collector.pos, base_pos);
    assert!(collector.carrying.is_none());
    assert!(matches!(collector.state, CollectorState::GoingToResource));
}

#[test]
fn collector_releases_claim_when_deposit_is_gone() {
    let map = make_map(2, 1);
    let resource_pos = Pos { x: 1, y: 0 };
    let mut known = ResourceMap::new();
    known.insert(
        resource_pos,
        Resource {
            kind: ResourceKind::Energy,
            quantity: 1,
        },
    );
    let base_pos = Pos { x: 0, y: 0 };
    let mut claimed = PosSet::new();
    let mut collector = Collector::new(1, base_pos);
    collector.step(&map, &known, base_pos, &Vec::new(), &mut claimed); // claims
    collector.step(&map, &known, base_pos, &Vec::new(), &mut claimed); // arrives, collects
    known.remove(&resource_pos);
    collector.step(&map, &known, base_pos, &Vec::new(), &mut claimed); // back at base
    assert!(matches!(collector.state, CollectorState::Idle));
    assert!(collector.target.is_none());
    assert!(claimed.is_empty());
}

#[test]
fn collector_skips_claimed_deposits() {
    let map = make_map(3, 1);
    let mut known = ResourceMap::new();
    let a = Pos { x: 1, y: 0 };
    let b = Pos { x: 2, y: 0 };
    let res = Resource {
        kind: ResourceKind::Energy,
        quantity: 3,
    };
    known.insert(a, res);
    known.insert(b, res);
    let mut claimed = PosSet::new();
    claimed.insert(a);
    let mut collector = Collector::new(0, Pos { x: 0, y: 0 });
    collector.step(&map, &known, Pos { x: 0, y: 0 }, &Vec::new(), &mut claimed);
    assert_eq!(collector.target, Some(b));
    assert!(claimed.contains(&a) && claimed.contains(&b));
}

#[test]
fn collector_stays_idle_when_target_unreachable() {
    let mut map = make_map(3, 1);
    map.tiles[0][1] = Tile::Obstacle;
    let mut known = ResourceMap::new();
    known.insert(
        Pos { x: 2, y: 0 },
        Resource {
            kind: ResourceKind::Energy,
            quantity: 3,
        },
    );
    let mut claimed = PosSet::new();
    let mut collector = Collector::new(0, Pos { x: 0, y: 0 });
    let msg = collector.step(&map, &known, Pos { x: 0, y: 0 }, &Vec::new(), &mut claimed);
    assert!(msg.is_none());
    assert!(matches!(collector.state, CollectorState::Idle));
    assert!(claimed.is_empty());
}

#[test]
fn collector_waits_for_an_occupied_cell() {
    let map = make_map(3, 1);
    let mut known = ResourceMap::new();
    known.insert(
        Pos { x: 2, y: 0 },
        Resource {
            kind: ResourceKind::Energy,
            quantity: 3,
        },
    );
    let base_pos = Pos { x: 0, y: 0 };
    let mut claimed = PosSet::new();
    let mut collector = Collector::new(0, base_pos);
    collector.step(&map, &known, base_pos, &Vec::new(), &mut claimed);
    assert!(matches!(collector.state, CollectorState::GoingToResource));
    // another collector stands on the next cell: wait
    let others = vec![Pos { x: 1, y: 0 }];
    let msg = collector.step(&map, &known, base_pos, &others, &mut claimed);
    assert!(msg.is_none());
    assert_eq!(collector.pos, base_pos);
    assert_eq!(collector.path, vec![Pos { x: 1, y: 0 }, Pos { x: 2, y: 0 }]);
    // the cell is free again: move
    collector.step(&map, &known, base_pos, &Vec::new(), &mut claimed);
    assert_eq!(collector.pos, Pos { x: 1, y: 0 });
}

#[test]
fn collector_may_enter_the_base_when_others_are_there() {
    let map = make_map(2, 1);
    let mut known = ResourceMap::new();
    known.insert(
        Pos { x: 1, y: 0 },
        Resource {
            kind: ResourceKind::Energy,
            quantity: 3,
        },
    );
    let base_pos = Pos { x: 0, y: 0 };
    let mut claimed = PosSet::new();
    let mut collector = Collector::new(0, base_pos);
    collector.step(&map, &known, base_pos, &Vec::new(), &mut claimed);
    collector.step(&map, &known, base_pos, &Vec::new(), &mut claimed);
    assert!(matches!(collector.state, CollectorState::GoingToBase));
    let others = vec![base_pos];
    let msg = collector.step(&map, &known, base_pos, &others, &mut claimed);
    assert_eq!(collector.pos, base_pos);
    assert!(matches!(msg, Some(RobotMessage::Unloading { .. })));
}

#[test]
fn bfs_takes_the_first_shortest_path_in_direction_order() {
    let map = make_map(3, 3);
    assert_eq!(
        bfs(&map, Pos { x: 0, y: 0 }, Pos { x: 2, y: 2 }),
        vec![
            Pos { x: 1, y: 0 },
            Pos { x: 2, y: 0 },
            Pos { x: 2, y: 1 },
            Pos { x: 2, y: 2 },
        ]
    );
    assert_eq!(
        bfs(&map, Pos { x: 2, y: 2 }, Pos { x: 0, y: 0 }),
        vec![
            Pos { x: 1, y: 2 },
            Pos { x: 0, y: 2 },
            Pos { x: 0, y: 1 },
            Pos { x: 0, y: 0 },
        ]
    );
}

#[test]
fn idle_collector_ignores_a_stale_path() {
    let map = make_map(3, 1);
    let mut known = ResourceMap::new();
    known.insert(
        Pos { x: 2, y: 0 },
        Resource {
            kind: ResourceKind::Energy,
            quantity: 3,
        },
    );
    let mut claimed = PosSet::new();
    let mut collector = Collector::new(0, Pos { x: 0, y: 0 });
    collector.path = vec![Pos { x: 50, y: 50 }];
    collector.step(&map, &known, Pos { x: 0, y: 0 }, &Vec::new(), &mut claimed);
    assert!(matches!(collector.state, CollectorState::GoingToResource));
    assert_eq!(collector.path, vec![Pos { x: 1, y: 0 }, Pos { x: 2, y: 0 }]);
}

#[test]
fn idle_collector_off_the_map_with_nothing_to_claim_may_step() {
    let map = make_map(3, 3);
    let known = ResourceMap::new();
    let mut claimed = PosSet::new();
    let mut collector = Collector::new(0, Pos { x: 10, y: 10 });
    let others = Vec::new();
    assert!(collector.can_step(&map, &known, Pos { x: 0, y: 0 }, &others, &claimed));
    let msg = collector.step(&map, &known, Pos { x: 0, y: 0 }, &others, &mut claimed);
    assert!(msg.is_none());
    assert_eq!(collector.pos, Pos { x: 10, y: 10 });
    assert!(matches!(collector.state, CollectorState::Idle));
}

#[test]
fn idle_collector_off_the_map_may_not_search() {
    let map = make_map(3, 3);
    let mut known = ResourceMap::new();
    known.insert(
        Pos { x: 2, y: 2 },
        Resource {
            kind: ResourceKind::Crystal,
            quantity: 5,
        },
    );
    let claimed = PosSet::new();
    let collector = Collector::new(0, Pos { x: 10, y: 10 });
    assert!(!collector.can_step(&map, &known, Pos { x: 0, y: 0 }, &Vec::new(), &claimed));
    let on_map = Collector::new(1, Pos { x: 1, y: 1 });
    assert!(on_map.can_step(&map, &known, Pos { x: 0, y: 0 }, &Vec::new(), &claimed));
}
