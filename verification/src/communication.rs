use vstd::prelude::*;

use crate::collections::ResourceMap;
use crate::types::{Pos, Resource, ResourceKind, RobotMessage};

verus! {

/// What the display shows of the robots' reports.
pub struct UIState {
    pub discovered_resources: ResourceMap,
    pub discovered_obstacles: Vec<Pos>,
    pub energy_collected: u32,
    pub crystals_collected: u32,
}

/// The contents of a `UIState`.
pub struct UIModel {
    pub discovered_resources: Map<Pos, Resource>,
    pub discovered_obstacles: Seq<Pos>,
    pub energy_collected: u32,
    pub crystals_collected: u32,
}

impl View for UIState {
    type V = UIModel;

    open spec fn view(&self) -> UIModel {
        UIModel {
            discovered_resources: self.discovered_resources@,
            discovered_obstacles: self.discovered_obstacles@,
            energy_collected: self.energy_collected,
            crystals_collected: self.crystals_collected,
        }
    }
}

impl UIState {
    pub open spec fn wf(&self) -> bool {
        self.discovered_resources.wf()
    }

    /// A display state with nothing reported yet.
    pub fn new() -> (r: Self)
        ensures
            r.wf(),
            r@.discovered_resources == Map::<Pos, Resource>::empty(),
            r@.discovered_obstacles == Seq::<Pos>::empty(),
            r.energy_collected == 0,
            r.crystals_collected == 0,
    {
        UIState {
            discovered_resources: ResourceMap::new(),
            discovered_obstacles: Vec::new(),
            energy_collected: 0,
            crystals_collected: 0,
        }
    }
}

impl Default for UIState {
    fn default() -> (r: Self)
        ensures
            r.wf(),
            r@.discovered_resources == Map::<Pos, Resource>::empty(),
            r@.discovered_obstacles == Seq::<Pos>::empty(),
            r.energy_collected == 0,
            r.crystals_collected == 0,
    {
        UIState::new()
    }
}

/// `msg` can be counted without overflowing a counter.
pub open spec fn display_fits(s: UIModel, msg: RobotMessage) -> bool {
    match msg {
        RobotMessage::Unloading { kind: ResourceKind::Energy, amount, .. } => s.energy_collected + amount
            <= u32::MAX,
        RobotMessage::Unloading { kind: ResourceKind::Crystal, amount, .. } => s.crystals_collected
            + amount <= u32::MAX,
        _ => true,
    }
}

/// What the display shows after `msg`.
pub open spec fn display_message(s: UIModel, msg: RobotMessage) -> UIModel {
    match msg {
        RobotMessage::DiscoveredResource { pos, resource } => UIModel {
            discovered_resources: s.discovered_resources.insert(pos, resource),
            ..s
        },
        RobotMessage::DiscoveredObstacle { pos } => if s.discovered_obstacles.contains(pos) {
            s
        } else {
            UIModel { discovered_obstacles: s.discovered_obstacles.push(pos), ..s }
        },
        RobotMessage::CollectedUnit { .. } => s,
        RobotMessage::Unloading { kind, amount, .. } => match kind {
            ResourceKind::Energy => UIModel {
                energy_collected: (s.energy_collected + amount) as u32,
                ..s
            },
            ResourceKind::Crystal => UIModel {
                crystals_collected: (s.crystals_collected + amount) as u32,
                ..s
            },
        },
    }
}

/// Updates the display with a robot's message: a reported deposit is
/// recorded, a reported obstacle is listed once, and an unloading adds its
/// units to the counter of its kind. A collected unit is counted when it is
/// unloaded, not when it is picked up.
pub fn handle_robot_message(msg: &RobotMessage, state: &mut UIState)
    requires
        old(state).wf(),
        display_fits(old(state)@, *msg),
    ensures
        final(state).wf(),
        final(state)@ == display_message(old(state)@, *msg),
{
    match msg {
        RobotMessage::DiscoveredResource { pos, resource } => {
            state.discovered_resources.insert(*pos, *resource);
        },
        RobotMessage::DiscoveredObstacle { pos } => {
            if !contains_pos(&state.discovered_obstacles, pos) {
                state.discovered_obstacles.push(*pos);
            }
        },
        RobotMessage::CollectedUnit { .. } => {},
        RobotMessage::Unloading { robot_id: _, kind, amount } => match kind {
            ResourceKind::Energy => state.energy_collected = state.energy_collected + *amount,
            ResourceKind::Crystal => state.crystals_collected = state.crystals_collected + *amount,
        },
    }
}

/// A unit picked up and then unloaded raises the counter of its kind by
/// exactly one and leaves the other counter as it was.
pub proof fn lemma_unit_counted_once(s: UIModel, pos: Pos, robot_id: usize, kind: ResourceKind)
    requires
        display_fits(s, RobotMessage::Unloading { robot_id, kind, amount: 1 }),
    ensures
        ({
            let after = display_message(
                display_message(s, RobotMessage::CollectedUnit { pos, kind }),
                RobotMessage::Unloading { robot_id, kind, amount: 1 },
            );
            &&& kind == ResourceKind::Energy ==> after.energy_collected == s.energy_collected + 1
                && after.crystals_collected == s.crystals_collected
            &&& kind == ResourceKind::Crystal ==> after.crystals_collected == s.crystals_collected + 1
                && after.energy_collected == s.energy_collected
        }),
{
}

/// Whether `pos` occurs in `list`.
fn contains_pos(list: &Vec<Pos>, pos: &Pos) -> (r: bool)
    ensures
        r == list@.contains(*pos),
{
    let mut i: usize = 0;
    while i < list.len()
        invariant
            i <= list@.len(),
            forall|j: int| 0 <= j < i ==> list@[j] != *pos,
        decreases list@.len() - i,
    {
        if list[i] == *pos {
            return true;
        }
        i = i + 1;
    }
    false
}

/// The list of reported obstacles never holds a position twice.
pub proof fn lemma_obstacles_stay_distinct(s: UIModel, msg: RobotMessage)
    requires
        s.discovered_obstacles.no_duplicates(),
    ensures
        display_message(s, msg).discovered_obstacles.no_duplicates(),
{
    if let RobotMessage::DiscoveredObstacle { pos } = msg {
        if !s.discovered_obstacles.contains(pos) {
            let o = s.discovered_obstacles.push(pos);
            assert forall|i: int, j: int| 0 <= i < o.len() && 0 <= j < o.len() && i != j implies o[i]
                != o[j] by {
                if i == o.len() - 1 {
                    assert(o[j] == s.discovered_obstacles[j]);
                } else if j == o.len() - 1 {
                    assert(o[i] == s.discovered_obstacles[i]);
                }
            }
        }
    }
}

/// A report of a deposit or an obstacle changes nothing the second time it
/// arrives.
pub proof fn lemma_display_discovery_idempotent(s: UIModel, msg: RobotMessage)
    requires
        msg is DiscoveredResource || msg is DiscoveredObstacle,
    ensures
        display_message(display_message(s, msg), msg) == display_message(s, msg),
{
    match msg {
        RobotMessage::DiscoveredResource { pos, resource } => {
            assert(s.discovered_resources.insert(pos, resource).insert(pos, resource)
                =~= s.discovered_resources.insert(pos, resource));
        },
        RobotMessage::DiscoveredObstacle { pos } => {
            if !s.discovered_obstacles.contains(pos) {
                assert(s.discovered_obstacles.push(pos)[s.discovered_obstacles.len() as int] == pos);
            }
        },
        _ => {},
    }
}

} // verus!
