use resource_collection_simulation::{
    handle_robot_message, Pos, Resource, ResourceKind, RobotMessage, UIState,
};

#[test]
fn display_counts_each_unit_once_when_unloaded() {
    let mut state = UIState::new();
    handle_robot_message(
        &RobotMessage::CollectedUnit {
            pos: Pos { x: 0, y: 0 },
            kind: ResourceKind::Energy,
        },
        &mut state,
    );
    handle_robot_message(
        &RobotMessage::Unloading {
            robot_id: 2,
            kind: ResourceKind::Crystal,
            amount: 3,
        },
        &mut state,
    );
    handle_robot_message(
        &RobotMessage::Unloading {
            robot_id: 2,
            kind: ResourceKind::Energy,
            amount: 4,
        },
        &mut state,
    );
    assert_eq!(state.energy_collected, 4);
    assert_eq!(state.crystals_collected, 3);
}

#[test]
fn display_lists_each_obstacle_once() {
    let mut state = UIState::default();
    let a = RobotMessage::DiscoveredObstacle { pos: Pos { x: 1, y: 1 } };
    let b = RobotMessage::DiscoveredObstacle { pos: Pos { x: 2, y: 1 } };
    handle_robot_message(&a, &mut state);
    handle_robot_message(&b, &mut state);
    handle_robot_message(&a, &mut state);
    assert_eq!(
        state.discovered_obstacles,
        vec![Pos { x: 1, y: 1 }, Pos { x: 2, y: 1 }]
    );
}

#[test]
fn display_records_deposits() {
    let mut state = UIState::new();
    let res = Resource {
        kind: ResourceKind::Crystal,
        quantity: 9,
    };
    let msg = RobotMessage::DiscoveredResource {
        pos: Pos { x: 4, y: 0 },
        resource: res,
    };
    handle_robot_message(&msg, &mut state);
    handle_robot_message(&msg, &mut state);
    assert_eq!(state.discovered_resources.len(), 1);
    assert_eq!(state.discovered_resources.get(&Pos { x: 4, y: 0 }), Some(res));
    assert_eq!(state.energy_collected, 0);
}

#[test]
fn picked_up_then_unloaded_unit_counts_once() {
    let mut state = UIState::new();
    handle_robot_message(
        &RobotMessage::CollectedUnit {
            pos: Pos { x: 3, y: 3 },
            kind: ResourceKind::Crystal,
        },
        &mut state,
    );
    assert_eq!(state.crystals_collected, 0);
    handle_robot_message(
        &RobotMessage::Unloading {
            robot_id: 1,
            kind: ResourceKind::Crystal,
            amount: 1,
        },
        &mut state,
    );
    assert_eq!(state.crystals_collected, 1);
    assert_eq!(state.energy_collected, 0);
}
