//! A grid world in which scouts explore, collectors gather resources and a
//! base keeps count of what has been found and brought back.

pub mod base_state;
pub mod collections;
pub mod collector;
pub mod communication;
pub mod map;
pub mod pathfinding;
mod rng;
pub mod scout;
pub mod types;
pub mod ui;

pub use base_state::{BaseState, clear_collected_tile, handle_message};
pub use collections::{PosSet, ResourceMap};
pub use collector::{Collector, CollectorState};
pub use communication::{UIState, handle_robot_message};
pub use map::{ascii_rows, generate_map_with_obstacles, is_in_base_clear_zone, MAX_RESOURCE_QTY, MIN_RESOURCE_QTY};
pub use pathfinding::{bfs, get_neighbors};
pub use scout::Scout;
pub use types::{Pos, Resource, ResourceKind, RobotKind, RobotMessage, RobotState, Tile, WorldMap};
pub use ui::{Cell, CellColor, UIRenderer};
