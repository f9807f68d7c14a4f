use vstd::prelude::*;

use crate::collections::{PosSet, ResourceMap};
use crate::types::{Pos, Resource, ResourceKind, RobotMessage, Tile, WorldMap};

verus! {

/// What the base knows: the units brought back, and the deposits and
/// obstacles that robots reported.
pub struct BaseState {
    pub total_energy: u32,
    pub total_crystals: u32,
    pub known_resources: ResourceMap,
    pub known_obstacles: PosSet,
}

/// The contents of a `BaseState`.
pub struct BaseModel {
    pub total_energy: u32,
    pub total_crystals: u32,
    pub known_resources: Map<Pos, Resource>,
    pub known_obstacles: Set<Pos>,
}

impl View for BaseState {
    type V = BaseModel;

    open spec fn view(&self) -> BaseModel {
        BaseModel {
            total_energy: self.total_energy,
            total_crystals: self.total_crystals,
            known_resources: self.known_resources@,
            known_obstacles: self.known_obstacles@,
        }
    }
}

impl BaseState {
    pub open spec fn wf(&self) -> bool {
        self.known_resources.wf() && self.known_obstacles.wf()
    }

    /// A base that knows nothing and has received nothing.
    pub fn new() -> (r: Self)
        ensures
            r.wf(),
            r.total_energy == 0,
            r.total_crystals == 0,
            r@.known_resources == Map::<Pos, Resource>::empty(),
            r@.known_obstacles == Set::<Pos>::empty(),
    {
        BaseState {
            total_energy: 0,
            total_crystals: 0,
            known_resources: ResourceMap::new(),
            known_obstacles: PosSet::new(),
        }
    }
}

impl Default for BaseState {
    fn default() -> (r: Self)
        ensures
            r.wf(),
            r.total_energy == 0,
            r.total_crystals == 0,
            r@.known_resources == Map::<Pos, Resource>::empty(),
            r@.known_obstacles == Set::<Pos>::empty(),
    {
        BaseState::new()
    }
}

/// `msg` can be counted without overflowing a total.
pub open spec fn message_fits(b: BaseModel, msg: RobotMessage) -> bool {
    match msg {
        RobotMessage::Unloading { kind: ResourceKind::Energy, amount, .. } => b.total_energy + amount
            <= u32::MAX,
        RobotMessage::Unloading { kind: ResourceKind::Crystal, amount, .. } => b.total_crystals
            + amount <= u32::MAX,
        _ => true,
    }
}

/// What the base knows after receiving `msg`.
pub open spec fn apply_message(b: BaseModel, msg: RobotMessage) -> BaseModel {
    match msg {
        RobotMessage::DiscoveredResource { pos, resource } => BaseModel {
            known_resources: b.known_resources.insert(pos, resource),
            ..b
        },
        RobotMessage::DiscoveredObstacle { pos } => BaseModel {
            known_obstacles: b.known_obstacles.insert(pos),
            ..b
        },
        RobotMessage::Unloading { kind, amount, .. } => match kind {
            ResourceKind::Crystal => BaseModel {
                total_crystals: (b.total_crystals + amount) as u32,
                ..b
            },
            ResourceKind::Energy => BaseModel { total_energy: (b.total_energy + amount) as u32, ..b },
        },
        RobotMessage::CollectedUnit { pos, .. } => if b.known_resources.contains_key(pos) {
            let res = b.known_resources[pos];
            let left: u32 = if res.quantity > 0 {
                (res.quantity - 1) as u32
            } else {
                0
            };
            if left == 0 {
                BaseModel { known_resources: b.known_resources.remove(pos), ..b }
            } else {
                BaseModel {
                    known_resources: b.known_resources.insert(
                        pos,
                        Resource { kind: res.kind, quantity: left },
                    ),
                    ..b
                }
            }
        } else {
            b
        },
    }
}

/// Updates what the base knows with a robot's message: a reported deposit
/// or obstacle is recorded, an unloading adds to its total, and a collected
/// unit is taken from its deposit, which is forgotten once empty.
pub fn handle_message(base: &mut BaseState, msg: &RobotMessage)
    requires
        old(base).wf(),
        message_fits(old(base)@, *msg),
    ensures
        final(base).wf(),
        final(base)@ == apply_message(old(base)@, *msg),
{
    match msg {
        RobotMessage::DiscoveredResource { pos, resource } => {
            base.known_resources.insert(*pos, *resource);
        },
        RobotMessage::DiscoveredObstacle { pos } => {
            base.known_obstacles.insert(*pos);
        },
        RobotMessage::Unloading { robot_id: _, kind, amount } => match kind {
            ResourceKind::Crystal => base.total_crystals = base.total_crystals + *amount,
            ResourceKind::Energy => base.total_energy = base.total_energy + *amount,
        },
        RobotMessage::CollectedUnit { pos, kind: _ } => {
            if let Some(res) = base.known_resources.get(pos) {
                let left = res.quantity.saturating_sub(1);
                if left == 0 {
                    base.known_resources.remove(pos);
                } else {
                    base.known_resources.insert(*pos, Resource { kind: res.kind, quantity: left });
                }
            }
        },
    }
}

/// A report of a deposit or an obstacle changes nothing the second time it
/// arrives.
pub proof fn lemma_discovery_idempotent(b: BaseModel, msg: RobotMessage)
    requires
        msg is DiscoveredResource || msg is DiscoveredObstacle,
    ensures
        apply_message(apply_message(b, msg), msg) == apply_message(b, msg),
{
    match msg {
        RobotMessage::DiscoveredResource { pos, resource } => {
            assert(b.known_resources.insert(pos, resource).insert(pos, resource)
                =~= b.known_resources.insert(pos, resource));
        },
        RobotMessage::DiscoveredObstacle { pos } => {
            assert(b.known_obstacles.insert(pos).insert(pos) =~= b.known_obstacles.insert(pos));
        },
        _ => {},
    }
}

/// Only an unloading changes the totals, and it adds exactly its amount to
/// the total of its kind.
pub proof fn lemma_totals_change_only_by_unloading(b: BaseModel, msg: RobotMessage)
    requires
        message_fits(b, msg),
    ensures
        apply_message(b, msg).total_energy + apply_message(b, msg).total_crystals == b.total_energy
            + b.total_crystals + match msg {
            RobotMessage::Unloading { amount, .. } => amount as int,
            _ => 0int,
        },
        apply_message(b, msg).total_energy >= b.total_energy,
        apply_message(b, msg).total_crystals >= b.total_crystals,
{
}

/// An unloading of `kind` raises the total of that kind by exactly its
/// amount, leaves the total of the other kind as it was, and changes nothing
/// the base knows of deposits and obstacles.
pub proof fn lemma_unloading_counts_its_kind(
    b: BaseModel,
    robot_id: usize,
    kind: ResourceKind,
    amount: u32,
)
    requires
        message_fits(b, RobotMessage::Unloading { robot_id, kind, amount }),
    ensures
        ({
            let a = apply_message(b, RobotMessage::Unloading { robot_id, kind, amount });
            &&& kind == ResourceKind::Energy ==> a.total_energy == b.total_energy + amount
                && a.total_crystals == b.total_crystals
            &&& kind == ResourceKind::Crystal ==> a.total_crystals == b.total_crystals + amount
                && a.total_energy == b.total_energy
            &&& a.known_resources == b.known_resources
            &&& a.known_obstacles == b.known_obstacles
        }),
{
}

/// What the base knows after `k` messages that a unit was collected at `pos`.
pub open spec fn collect_times(b: BaseModel, pos: Pos, kind: ResourceKind, k: nat) -> BaseModel
    decreases k,
{
    if k == 0 {
        b
    } else {
        apply_message(collect_times(b, pos, kind, (k - 1) as nat), RobotMessage::CollectedUnit { pos, kind })
    }
}

/// Collecting from a deposit `k` times, fewer than it holds, takes exactly
/// `k` units from it and keeps it known; collecting as many times as it
/// holds removes it.
pub proof fn lemma_collect_times(b: BaseModel, pos: Pos, kind: ResourceKind, k: nat)
    requires
        b.known_resources.contains_key(pos),
        k <= b.known_resources[pos].quantity,
    ensures
        k < b.known_resources[pos].quantity ==> {
            &&& collect_times(b, pos, kind, k).known_resources.contains_key(pos)
            &&& collect_times(b, pos, kind, k).known_resources[pos].quantity == b.known_resources[pos].quantity - k
            &&& collect_times(b, pos, kind, k).known_resources[pos].kind == b.known_resources[pos].kind
        },
        k == b.known_resources[pos].quantity && k > 0 ==> !collect_times(b, pos, kind, k).known_resources.contains_key(pos),
        collect_times(b, pos, kind, k).total_energy == b.total_energy,
        collect_times(b, pos, kind, k).total_crystals == b.total_crystals,
    decreases k,
{
    if k > 0 {
        lemma_collect_times(b, pos, kind, (k - 1) as nat);
    }
}

/// After the base handled `msg`: when a collected unit emptied its deposit,
/// the map forgets that deposit and shows an empty tile there.
pub fn clear_collected_tile(map: &mut WorldMap, base: &BaseState, msg: &RobotMessage)
    requires
        old(map).wf(),
        base.wf(),
        match *msg {
            RobotMessage::CollectedUnit { pos, .. } => !base@.known_resources.contains_key(pos)
                ==> old(map).spec_in_bounds(pos),
            _ => true,
        },
    ensures
        final(map).wf(),
        final(map).width == old(map).width,
        final(map).height == old(map).height,
        final(map).base_pos == old(map).base_pos,
        match *msg {
            RobotMessage::CollectedUnit { pos, .. } => if !base@.known_resources.contains_key(pos) {
                &&& final(map).tile(pos) == Tile::Empty
                &&& forall|q: Pos|
                    final(map).spec_in_bounds(q) && q != pos ==> #[trigger] final(map).tile(q)
                        == old(map).tile(q)
                &&& final(map).resources@ == old(map).resources@.remove(pos)
            } else {
                &&& final(map).tiles@ == old(map).tiles@
                &&& final(map).resources@ == old(map).resources@
            },
            _ => {
                &&& final(map).tiles@ == old(map).tiles@
                &&& final(map).resources@ == old(map).resources@
            },
        },
{
    if let RobotMessage::CollectedUnit { pos, .. } = msg {
        if !base.known_resources.contains_key(pos) {
            let ghost before = *map;
            map.set_tile(*pos, Tile::Empty);
            let ghost mid = *map;
            map.resources.remove(pos);
            assert forall|q: Pos| map.spec_in_bounds(q) && q != *pos implies #[trigger] map.tile(q)
                == before.tile(q) by {
                assert(map.tile(q) == mid.tile(q));
            }
        }
    }
}

} // verus!
