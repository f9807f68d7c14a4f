use std::sync::{Arc, Mutex};

use resource_collection_simulation::{
    clear_collected_tile, handle_message, BaseState, Pos, Resource, ResourceKind, ResourceMap,
    RobotMessage, Tile, WorldMap,
};

#[test]
fn add_discovered_resource_crystal() {
    let mut base_state: BaseState = BaseState::default();
    let robot_message: RobotMessage = RobotMessage::DiscoveredResource {
        pos: (Pos { x: 1, y: 2 }),
        resource: Resource {
            kind: ResourceKind::Crystal,
            quantity: 5,
        },
    };

    handle_message(&mut base_state, &robot_message);

    assert_eq!(base_state.total_crystals, 0);
    assert_eq!(base_state.total_energy, 0);
    assert_eq!(base_state.known_resources.len(), 1);
    assert_eq!(
        base_state.known_resources.get(&Pos { x: 1, y: 2 }),
        Some(Resource {
            kind: ResourceKind::Crystal,
            quantity: 5,
        })
    );
    assert!(base_state.known_obstacles.is_empty());
}

#[test]
fn add_discovered_resource_energy() {
    let mut base_state: BaseState = BaseState::default();
    let robot_message: RobotMessage = RobotMessage::DiscoveredResource {
        pos: (Pos { x: 1, y: 2 }),
        resource: Resource {
            kind: ResourceKind::Energy,
            quantity: 5,
        },
    };

    handle_message(&mut base_state, &robot_message);

    assert_eq!(base_state.total_crystals, 0);
    assert_eq!(base_state.total_energy, 0);
    assert_eq!(base_state.known_resources.len(), 1);
    assert_eq!(
        base_state.known_resources.get(&Pos { x: 1, y: 2 }),
        Some(Resource {
            kind: ResourceKind::Energy,
            quantity: 5,
        })
    );
    assert!(base_state.known_obstacles.is_empty());
}

#[test]
fn add_multiple_discovered_resource() {
    let mut base_state: BaseState = BaseState::default();
    let robot_message: RobotMessage = RobotMessage::DiscoveredResource {
        pos: (Pos { x: 1, y: 2 }),
        resource: Resource {
            kind: ResourceKind::Crystal,
            quantity: 5,
        },
    };

    handle_message(&mut base_state, &robot_message);
    handle_message(&mut base_state, &robot_message);

    assert_eq!(base_state.total_crystals, 0);
    assert_eq!(base_state.total_energy, 0);
    assert_eq!(base_state.known_resources.len(), 1);
    assert_eq!(
        base_state.known_resources.get(&Pos { x: 1, y: 2 }),
        Some(Resource {
            kind: ResourceKind::Crystal,
            quantity: 5,
        })
    );
    assert!(base_state.known_obstacles.is_empty());
}

#[test]
fn add_discovered_obstacle() {
    let mut base_state: BaseState = BaseState::default();
    let robot_message: RobotMessage = RobotMessage::DiscoveredObstacle {
        pos: Pos { x: 3, y: 2 },
    };

    handle_message(&mut base_state, &robot_message);

    assert_eq!(base_state.total_crystals, 0);
    assert_eq!(base_state.total_energy, 0);
    assert!(base_state.known_resources.is_empty());
    assert_eq!(base_state.known_obstacles.len(), 1);
    assert!(base_state.known_obstacles.contains(&Pos { x: 3, y: 2 }));
}

#[test]
fn collected_unit_decrements_quantity() {
    let mut base_state = BaseState::default();
    let discovery = RobotMessage::DiscoveredResource {
        pos: Pos { x: 1, y: 1 },
        resource: Resource {
            kind: ResourceKind::Crystal,
            quantity: 5,
        },
    };
    handle_message(&mut base_state, &discovery);

    let collect = RobotMessage::CollectedUnit {
        pos: Pos { x: 1, y: 1 },
        kind: ResourceKind::Crystal,
    };
    handle_message(&mut base_state, &collect);

    assert_eq!(
        base_state
            .known_resources
            .get(&Pos { x: 1, y: 1 })
            .unwrap()
            .quantity,
        4
    );
    assert_eq!(base_state.total_crystals, 0);
}

#[test]
fn collected_unit_removes_when_empty() {
    let mut base_state = BaseState::default();
    let discovery = RobotMessage::DiscoveredResource {
        pos: Pos { x: 2, y: 2 },
        resource: Resource {
            kind: ResourceKind::Energy,
            quantity: 1,
        },
    };
    handle_message(&mut base_state, &discovery);

    let collect = RobotMessage::CollectedUnit {
        pos: Pos { x: 2, y: 2 },
        kind: ResourceKind::Energy,
    };
    handle_message(&mut base_state, &collect);

    assert!(!base_state.known_resources.contains_key(&Pos { x: 2, y: 2 }));
}

#[test]
fn collected_unit_on_unknown_resource_does_not_panic() {
    let mut base_state = BaseState::default();
    let collect = RobotMessage::CollectedUnit {
        pos: Pos { x: 99, y: 99 },
        kind: ResourceKind::Crystal,
    };
    handle_message(&mut base_state, &collect);
    assert!(base_state.known_resources.is_empty());
}

#[test]
fn knowledge_sharing_via_arc() {
    let base = Arc::new(Mutex::new(BaseState::default()));
    let base_clone = base.clone();

    let msg = RobotMessage::DiscoveredResource {
        pos: Pos { x: 3, y: 4 },
        resource: Resource {
            kind: ResourceKind::Energy,
            quantity: 50,
        },
    };
    handle_message(&mut base_clone.lock().unwrap(), &msg);

    let state = base.lock().unwrap();
    assert!(state.known_resources.contains_key(&Pos { x: 3, y: 4 }));
    assert_eq!(
        state
            .known_resources
            .get(&Pos { x: 3, y: 4 })
            .unwrap()
            .quantity,
        50
    );
}

#[test]
fn collected_unit_visible_to_all() {
    let base = Arc::new(Mutex::new(BaseState::default()));

    handle_message(
        &mut base.lock().unwrap(),
        &RobotMessage::DiscoveredResource {
            pos: Pos { x: 1, y: 1 },
            resource: Resource {
                kind: ResourceKind::Crystal,
                quantity: 3,
            },
        },
    );

    let base_clone = base.clone();
    handle_message(
        &mut base_clone.lock().unwrap(),
        &RobotMessage::CollectedUnit {
            pos: Pos { x: 1, y: 1 },
            kind: ResourceKind::Crystal,
        },
    );

    assert_eq!(
        base.lock()
            .unwrap()
            .known_resources
            .get(&Pos { x: 1, y: 1 })
            .unwrap()
            .quantity,
        2
    );
}

#[test]
fn unloading_adds_to_the_right_total() {
    let mut base = BaseState::new();
    handle_message(
        &mut base,
        &RobotMessage::Unloading {
            robot_id: 4,
            kind: ResourceKind::Energy,
            amount: 7,
        },
    );
    handle_message(
        &mut base,
        &RobotMessage::Unloading {
            robot_id: 4,
            kind: ResourceKind::Crystal,
            amount: 2,
        },
    );
    handle_message(
        &mut base,
        &RobotMessage::Unloading {
            robot_id: 5,
            kind: ResourceKind::Energy,
            amount: 1,
        },
    );
    assert_eq!(base.total_energy, 8);
    assert_eq!(base.total_crystals, 2);
    assert!(base.known_resources.is_empty());
}

#[test]
fn obstacle_reported_twice_is_kept_once() {
    let mut base = BaseState::new();
    let msg = RobotMessage::DiscoveredObstacle {
        pos: Pos { x: 0, y: 5 },
    };
    handle_message(&mut base, &msg);
    handle_message(&mut base, &msg);
    assert_eq!(base.known_obstacles.len(), 1);
}

#[test]
fn collecting_every_unit_forgets_the_deposit() {
    let mut base = BaseState::new();
    let pos = Pos { x: 4, y: 4 };
    handle_message(
        &mut base,
        &RobotMessage::DiscoveredResource {
            pos,
            resource: Resource {
                kind: ResourceKind::Energy,
                quantity: 3,
            },
        },
    );
    let collect = RobotMessage::CollectedUnit {
        pos,
        kind: ResourceKind::Energy,
    };
    handle_message(&mut base, &collect);
    handle_message(&mut base, &collect);
    assert_eq!(base.known_resources.get(&pos).unwrap().quantity, 1);
    handle_message(&mut base, &collect);
    assert!(!base.known_resources.contains_key(&pos));
    assert_eq!(base.total_energy, 0);
}

#[test]
fn collected_deposit_with_zero_units_is_forgotten() {
    let mut base = BaseState::new();
    let pos = Pos { x: 1, y: 0 };
    handle_message(
        &mut base,
        &RobotMessage::DiscoveredResource {
            pos,
            resource: Resource {
                kind: ResourceKind::Crystal,
                quantity: 0,
            },
        },
    );
    handle_message(
        &mut base,
        &RobotMessage::CollectedUnit {
            pos,
            kind: ResourceKind::Crystal,
        },
    );
    assert!(!base.known_resources.contains_key(&pos));
}

fn small_map() -> WorldMap {
    let mut resources = ResourceMap::new();
    resources.insert(
        Pos { x: 1, y: 0 },
        Resource {
            kind: ResourceKind::Energy,
            quantity: 1,
        },
    );
    let mut tiles = vec![vec![Tile::Empty; 2]; 1];
    tiles[0][1] = Tile::Resource(ResourceKind::Energy);
    WorldMap {
        width: 2,
        height: 1,
        tiles,
        base_pos: Pos { x: 0, y: 0 },
        resources,
    }
}

#[test]
fn emptied_deposit_is_cleared_from_the_map() {
    let mut map = small_map();
    let base = BaseState::new();
    let msg = RobotMessage::CollectedUnit {
        pos: Pos { x: 1, y: 0 },
        kind: ResourceKind::Energy,
    };
    clear_collected_tile(&mut map, &base, &msg);
    assert_eq!(map.tiles[0][1], Tile::Empty);
    assert!(map.resources.is_empty());
}

#[test]
fn deposit_still_known_stays_on_the_map() {
    let mut map = small_map();
    let mut base = BaseState::new();
    handle_message(
        &mut base,
        &RobotMessage::DiscoveredResource {
            pos: Pos { x: 1, y: 0 },
            resource: Resource {
                kind: ResourceKind::Energy,
                quantity: 4,
            },
        },
    );
    let msg = RobotMessage::CollectedUnit {
        pos: Pos { x: 1, y: 0 },
        kind: ResourceKind::Energy,
    };
    clear_collected_tile(&mut map, &base, &msg);
    assert_eq!(map.tiles[0][1], Tile::Resource(ResourceKind::Energy));
    assert_eq!(map.resources.len(), 1);
}
