use vstd::prelude::*;

use crate::collections::{PosSet, ResourceMap};
use crate::pathfinding::{adjacent, bfs, is_walk, passable, reachable, search_result, shortest_walk};
use crate::types::{Pos, Resource, ResourceKind, RobotMessage, WorldMap};

verus! {

/// What a collector is doing.
#[derive(Clone, Copy, PartialEq, Eq, Debug, Structural)]
pub enum CollectorState {
    Idle,
    GoingToResource,
    GoingToBase,
}

/// A robot that fetches one unit at a time from a known deposit and brings
/// it back to the base.
pub struct Collector {
    pub id: usize,
    pub pos: Pos,
    pub state: CollectorState,
    pub target: Option<Pos>,
    pub path: Vec<Pos>,
    pub carrying: Option<(ResourceKind, u32)>,
}

/// The first key of `entries` that is not in `claimed`, if any.
pub open spec fn first_unclaimed(entries: Seq<(Pos, Resource)>, claimed: Set<Pos>) -> Option<Pos> {
    if exists|j: int|
        0 <= j < entries.len() && !claimed.contains(#[trigger] entries[j].0) && forall|i: int|
            0 <= i < j ==> claimed.contains(#[trigger] entries[i].0) {
        let j = choose|j: int|
            0 <= j < entries.len() && !claimed.contains(#[trigger] entries[j].0) && forall|i: int|
                0 <= i < j ==> claimed.contains(#[trigger] entries[i].0);
        Some(entries[j].0)
    } else {
        None
    }
}

/// The deposit a collector claims was claimed by no other: it is a known
/// deposit outside `claimed`. When none is found, every known deposit is
/// claimed.
pub proof fn lemma_claim_is_free(entries: Seq<(Pos, Resource)>, claimed: Set<Pos>)
    ensures
        first_unclaimed(entries, claimed) matches Some(t) ==> !claimed.contains(t) && exists|j: int|
            0 <= j < entries.len() && (#[trigger] entries[j]).0 == t,
        first_unclaimed(entries, claimed) is None ==> forall|j: int|
            0 <= j < entries.len() ==> claimed.contains(#[trigger] entries[j].0),
{
    if first_unclaimed(entries, claimed) is None {
        assert forall|j: int| 0 <= j < entries.len() implies claimed.contains(#[trigger] entries[j].0) by {
            if !claimed.contains(entries[j].0) {
                lemma_first_unclaimed_exists(entries, claimed, j);
            }
        }
    }
}

/// An entry outside `claimed` means there is a first such entry.
proof fn lemma_first_unclaimed_exists(entries: Seq<(Pos, Resource)>, claimed: Set<Pos>, j: int)
    requires
        0 <= j < entries.len(),
        !claimed.contains(entries[j].0),
    ensures
        first_unclaimed(entries, claimed) is Some,
    decreases j,
{
    if forall|i: int| 0 <= i < j ==> claimed.contains(#[trigger] entries[i].0) {
    } else {
        let i = choose|i: int| 0 <= i < j && !claimed.contains(#[trigger] entries[i].0);
        lemma_first_unclaimed_exists(entries, claimed, i);
    }
}

/// Every cell of `path` lies on the map.
pub open spec fn path_on_map(map: &WorldMap, path: Seq<Pos>) -> bool {
    forall|i: int| 0 <= i < path.len() ==> map.spec_in_bounds(#[trigger] path[i])
}

/// A search result is a walk, so it stays on the map.
proof fn lemma_search_on_map(map: &WorldMap, start: Pos, goal: Pos, r: Seq<Pos>)
    requires
        search_result(map, start, goal, r),
    ensures
        path_on_map(map, r),
{
    if r.len() > 0 {
        assert(is_walk(map, start, r));
        assert forall|i: int| 0 <= i < r.len() implies map.spec_in_bounds(#[trigger] r[i]) by {
            assert(passable(map, r[i]));
        }
    }
}

/// Taking the first step of a walk leaves a walk from where the robot now stands.
proof fn lemma_walk_step(map: &WorldMap, start: Pos, path: Seq<Pos>)
    requires
        is_walk(map, start, path),
        path.len() > 0,
    ensures
        is_walk(map, path[0], path.drop_first()),
        adjacent(start, path[0]),
        passable(map, path[0]),
{
    let rest = path.drop_first();
    assert(passable(map, path[0]) && adjacent(start, path[0]));
    assert forall|i: int| 0 <= i < rest.len() implies passable(map, #[trigger] rest[i]) && adjacent(
        if i == 0 {
            path[0]
        } else {
            rest[i - 1]
        },
        rest[i],
    ) by {
        assert(rest[i] == path[i + 1]);
        assert(passable(map, path[i + 1]));
        if i > 0 {
            assert(rest[i - 1] == path[i]);
        }
    }
}

/// A search from `from` to `to` can be made: it starts on the map, or it
/// is already at its goal.
pub open spec fn can_search(map: &WorldMap, from: Pos, to: Pos) -> bool {
    map.spec_in_bounds(from) || from == to
}

/// Every search that one step of `c` makes starts on the map: from where an
/// idle collector stands when there is a deposit to claim, and from the cell
/// that a busy collector arrives on.
pub open spec fn searches_on_map(
    c: Collector,
    map: &WorldMap,
    known_resources: &ResourceMap,
    base_pos: Pos,
    others: Seq<Pos>,
    claimed: Set<Pos>,
) -> bool {
    &&& c.state == CollectorState::Idle ==> match first_unclaimed(
        known_resources.entries(),
        claimed,
    ) {
        Some(t) => can_search(map, c.pos, t),
        None => true,
    }
    &&& c.state == CollectorState::GoingToResource && !blocked(c, others, base_pos) && c.arrives()
        ==> can_search(map, c.pos_after_tick(), base_pos)
    &&& c.state == CollectorState::GoingToBase && !blocked(c, others, base_pos) && c.arrives()
        ==> match c.target {
        Some(t) => known_resources@.contains_key(t) ==> can_search(map, c.pos_after_tick(), t),
        None => true,
    }
}

/// A collector that stands on the map with its path on it searches only
/// from cells of the map.
pub proof fn lemma_on_map_searches_on_map(
    c: Collector,
    map: &WorldMap,
    known_resources: &ResourceMap,
    base_pos: Pos,
    others: Seq<Pos>,
    claimed: Set<Pos>,
)
    requires
        c.on_map(map),
    ensures
        searches_on_map(c, map, known_resources, base_pos, others, claimed),
{
    if c.state != CollectorState::Idle && c.path@.len() > 0 {
        assert(map.spec_in_bounds(c.path@[0]));
    }
}

/// The next cell of a busy collector's path is held by another collector
/// and is not the base: the collector waits.
pub open spec fn blocked(c: Collector, others: Seq<Pos>, base_pos: Pos) -> bool {
    &&& c.state != CollectorState::Idle
    &&& c.path@.len() > 0
    &&& c.path@[0] != base_pos
    &&& others.contains(c.path@[0])
}

/// What one step does to a collector `c`, giving `n`, with `others` the
/// cells of the other collectors, `claimed` the shared claims before and
/// `claimed2` after, and `msg` the message for the base.
pub open spec fn step_spec(
    c: Collector,
    n: Collector,
    map: &WorldMap,
    known_resources: &ResourceMap,
    base_pos: Pos,
    others: Seq<Pos>,
    claimed: Set<Pos>,
    claimed2: Set<Pos>,
    msg: Option<RobotMessage>,
) -> bool {
    &&& n.id == c.id
    &&& blocked(c, others, base_pos) ==> {
        &&& n.pos == c.pos
        &&& n.path@ == c.path@
        &&& n.state == c.state
        &&& n.target == c.target
        &&& n.carrying == c.carrying
        &&& claimed2 == claimed
        &&& msg.is_none()
    }
    &&& c.state == CollectorState::Idle ==> match first_unclaimed(
        known_resources.entries(),
        claimed,
    ) {
        None => {
            &&& n.state == CollectorState::Idle
            &&& n.pos == c.pos
            &&& n.path@ == c.path@
            &&& n.target == c.target
            &&& n.carrying == c.carrying
            &&& claimed2 == claimed
            &&& msg.is_none()
        },
        Some(t) => {
            &&& n.pos == c.pos
            &&& n.carrying == c.carrying
            &&& msg.is_none()
            &&& if c.pos != t && reachable(map, c.pos, t) {
                &&& n.state == CollectorState::GoingToResource
                &&& n.target == Some(t)
                &&& search_result(map, c.pos, t, n.path@)
                &&& claimed2 == claimed.insert(t)
            } else {
                &&& n.state == CollectorState::Idle
                &&& n.target == c.target
                &&& n.path@ == c.path@
                &&& claimed2 == claimed
            }
        },
    }
    &&& c.state != CollectorState::Idle && !blocked(c, others, base_pos) ==> {
        &&& n.pos == c.pos_after_tick()
        &&& !c.arrives() ==> {
            &&& n.path@ == c.path_after_tick()
            &&& n.state == c.state
            &&& n.target == c.target
            &&& n.carrying == c.carrying
            &&& claimed2 == claimed
            &&& msg.is_none()
        }
    }
    &&& c.state == CollectorState::GoingToResource && !blocked(c, others, base_pos) && c.arrives() ==> {
        &&& n.state == CollectorState::GoingToBase
        &&& n.target == c.target
        &&& search_result(map, c.pos_after_tick(), base_pos, n.path@)
        &&& claimed2 == claimed
        &&& match c.target {
            Some(t) => if known_resources@.contains_key(t) {
                &&& n.carrying == Some((known_resources@[t].kind, 1u32))
                &&& msg == Some(
                    RobotMessage::CollectedUnit { pos: t, kind: known_resources@[t].kind },
                )
            } else {
                n.carrying == c.carrying && msg.is_none()
            },
            None => n.carrying == c.carrying && msg.is_none(),
        }
    }
    &&& c.state == CollectorState::GoingToBase && !blocked(c, others, base_pos) && c.arrives() ==> {
        &&& n.carrying.is_none()
        &&& msg == match c.carrying {
            Some((kind, amount)) => Some(
                RobotMessage::Unloading { robot_id: c.id, kind, amount },
            ),
            None => None,
        }
        &&& match c.target {
            Some(t) => if known_resources@.contains_key(t) {
                &&& n.state == CollectorState::GoingToResource
                &&& n.target == c.target
                &&& search_result(map, c.pos_after_tick(), t, n.path@)
                &&& claimed2 == claimed
            } else {
                &&& n.state == CollectorState::Idle
                &&& n.target.is_none()
                &&& n.path@.len() == 0
                &&& claimed2 == claimed.remove(t)
            },
            None => {
                &&& n.state == CollectorState::GoingToBase
                &&& n.target.is_none()
                &&& n.path@.len() == 0
                &&& claimed2 == claimed
            },
        }
    }
}

impl Collector {
    /// The collector's path is a walk from where it stands.
    pub open spec fn on_track(&self, map: &WorldMap) -> bool {
        is_walk(map, self.pos, self.path@)
    }

    /// The collector stands on the map and, when busy, its path stays on it.
    pub open spec fn on_map(&self, map: &WorldMap) -> bool {
        &&& map.spec_in_bounds(self.pos)
        &&& self.state != CollectorState::Idle ==> path_on_map(map, self.path@)
    }

    /// An idle collector has no target and carries nothing; a busy one has
    /// a target.
    pub open spec fn consistent(&self) -> bool {
        &&& self.state == CollectorState::Idle ==> self.target.is_none() && self.carrying.is_none()
        &&& self.state != CollectorState::Idle ==> self.target.is_some()
    }

    /// Where a tick leaves the collector.
    pub open spec fn pos_after_tick(&self) -> Pos {
        if self.path@.len() == 0 {
            self.pos
        } else {
            self.path@[0]
        }
    }

    /// The path that a tick leaves.
    pub open spec fn path_after_tick(&self) -> Seq<Pos> {
        if self.path@.len() == 0 {
            self.path@
        } else {
            self.path@.drop_first()
        }
    }

    /// Whether a tick ends the path.
    pub open spec fn arrives(&self) -> bool {
        self.path@.len() <= 1
    }

    /// A new idle collector at `start`, carrying nothing.
    pub fn new(id: usize, start: Pos) -> (r: Self)
        ensures
            r.id == id,
            r.pos == start,
            r.state == CollectorState::Idle,
            r.target.is_none(),
            r.path@.len() == 0,
            r.carrying.is_none(),
    {
        Collector {
            id,
            pos: start,
            state: CollectorState::Idle,
            target: None,
            path: Vec::new(),
            carrying: None,
        }
    }

    /// Moves one cell along the path; returns whether the path is done.
    pub fn tick(&mut self) -> (arrived: bool)
        ensures
            final(self).pos == old(self).pos_after_tick(),
            final(self).path@ == old(self).path_after_tick(),
            arrived == old(self).arrives(),
            final(self).id == old(self).id,
            final(self).state == old(self).state,
            final(self).target == old(self).target,
            final(self).carrying == old(self).carrying,
    {
        if self.path.len() == 0 {
            return true;
        }
        let ghost old_path = self.path@;
        self.pos = self.path.remove(0);
        assert(self.path@ =~= old_path.drop_first());
        self.path.len() == 0
    }

    /// One move of the collector's cycle.
    ///
    /// Idle: it claims the first known deposit that no collector has
    /// claimed and heads for it along a shortest path, or lets the claim go
    /// when that deposit cannot be reached. Going to a deposit: it moves one
    /// cell; on arrival it takes one unit (when the deposit is still known),
    /// reports it, and heads back to `base_pos`. Going to the base: it moves
    /// one cell; on arrival it unloads what it carries and either heads back
    /// to its deposit, if still known, or lets the claim go and turns idle.
    /// A busy collector whose next cell is held by one of `others` (the
    /// cells of the other collectors) and is not the base waits instead.
    /// Returns the message for the base, if any.
    pub fn step(
        &mut self,
        map: &WorldMap,
        known_resources: &ResourceMap,
        base_pos: Pos,
        others: &Vec<Pos>,
        claimed: &mut PosSet,
    ) -> (msg: Option<RobotMessage>)
        requires
            map.wf(),
            known_resources.wf(),
            old(claimed).wf(),
            searches_on_map(*old(self), map, known_resources, base_pos, others@, old(claimed)@),
        ensures
            final(claimed).wf(),
            old(self).on_map(map) ==> final(self).on_map(map),
            final(self).id == old(self).id,
            old(self).consistent() ==> final(self).consistent(),
            old(self).on_track(map) ==> final(self).on_track(map),
            old(self).on_track(map) && final(self).pos != old(self).pos ==> adjacent(old(self).pos, final(self).pos)
                && passable(map, final(self).pos),
            step_spec(
                *old(self),
                *final(self),
                map,
                known_resources,
                base_pos,
                others@,
                old(claimed)@,
                final(claimed)@,
                msg,
            ),
            final(self).pos == old(self).pos || final(self).pos == base_pos || !others@.contains(
                final(self).pos,
            ),
    {
        if self.state != CollectorState::Idle && self.path.len() > 0 && self.path[0] != base_pos
            && contains_cell(others, self.path[0]) {
            return None;
        }
        match self.state {
            CollectorState::Idle => {
                let found = find_unclaimed(known_resources, claimed);
                if let Some(t) = found {
                    let ghost before = claimed@;
                    claimed.insert(t);
                    let path = bfs(map, self.pos, t);
                    proof {
                        lemma_search_on_map(map, self.pos, t, path@);
                    }
                    if path.len() == 0 {
                        claimed.remove(&t);
                        assert(claimed@ =~= before);
                    } else {
                        self.target = Some(t);
                        self.path = path;
                        self.state = CollectorState::GoingToResource;
                    }
                }
                None
            },
            CollectorState::GoingToResource => {
                let ghost before = *self;
                proof {
                    if before.on_track(map) && before.path@.len() > 0 {
                        lemma_walk_step(map, before.pos, before.path@);
                    }
                }
                let arrived = self.tick();
                if arrived {
                    let mut msg: Option<RobotMessage> = None;
                    if let Some(t) = self.target {
                        if let Some(res) = known_resources.get(&t) {
                            self.carrying = Some((res.kind, 1));
                            msg = Some(RobotMessage::CollectedUnit { pos: t, kind: res.kind });
                        }
                    }
                    let path = bfs(map, self.pos, base_pos);
                    proof {
                        lemma_search_on_map(map, self.pos, base_pos, path@);
                    }
                    self.path = path;
                    self.state = CollectorState::GoingToBase;
                    msg
                } else {
                    proof {
                        if before.on_map(map) {
                            assert forall|i: int| 0 <= i < self.path@.len() implies map.spec_in_bounds(
                                #[trigger] self.path@[i],
                            ) by {
                                assert(self.path@[i] == before.path@[i + 1]);
                            }
                        }
                    }
                    None
                }
            },
            CollectorState::GoingToBase => {
                let ghost before = *self;
                proof {
                    if before.on_track(map) && before.path@.len() > 0 {
                        lemma_walk_step(map, before.pos, before.path@);
                    }
                }
                let arrived = self.tick();
                if arrived {
                    let msg = match self.carrying {
                        Some((kind, amount)) => Some(
                            RobotMessage::Unloading { robot_id: self.id, kind, amount },
                        ),
                        None => None,
                    };
                    self.carrying = None;
                    if let Some(t) = self.target {
                        if known_resources.contains_key(&t) {
                            let path = bfs(map, self.pos, t);
                            proof {
                                lemma_search_on_map(map, self.pos, t, path@);
                            }
                            self.path = path;
                            self.state = CollectorState::GoingToResource;
                        } else {
                            claimed.remove(&t);
                            self.target = None;
                            self.state = CollectorState::Idle;
                        }
                    }
                    msg
                } else {
                    proof {
                        if before.on_map(map) {
                            assert forall|i: int| 0 <= i < self.path@.len() implies map.spec_in_bounds(
                                #[trigger] self.path@[i],
                            ) by {
                                assert(self.path@[i] == before.path@[i + 1]);
                            }
                        }
                    }
                    None
                }
            },
        }
    }

    /// Whether every search that the next `step` makes starts on the map,
    /// so that `step` may be called.
    pub fn can_step(
        &self,
        map: &WorldMap,
        known_resources: &ResourceMap,
        base_pos: Pos,
        others: &Vec<Pos>,
        claimed: &PosSet,
    ) -> (r: bool)
        requires
            known_resources.wf(),
            claimed.wf(),
        ensures
            r == searches_on_map(*self, map, known_resources, base_pos, others@, claimed@),
    {
        let blocked = self.state != CollectorState::Idle && self.path.len() > 0 && self.path[0]
            != base_pos && contains_cell(others, self.path[0]);
        let next = if self.path.len() == 0 {
            self.pos
        } else {
            self.path[0]
        };
        let arrives = self.path.len() <= 1;
        match self.state {
            CollectorState::Idle => match find_unclaimed(known_resources, claimed) {
                Some(t) => map.in_bounds(self.pos) || self.pos == t,
                None => true,
            },
            CollectorState::GoingToResource => blocked || !arrives || map.in_bounds(next) || next
                == base_pos,
            CollectorState::GoingToBase => {
                if blocked || !arrives {
                    true
                } else {
                    match self.target {
                        Some(t) => !known_resources.contains_key(&t) || map.in_bounds(next) || next
                            == t,
                        None => true,
                    }
                }
            },
        }
    }
}

/// A collector heading for its deposit gets there: its path ends on the
/// deposit, or it already stands on it.
pub open spec fn heads_to_target(c: Collector) -> bool {
    c.state == CollectorState::GoingToResource ==> match c.target {
        Some(t) => if c.path@.len() > 0 {
            c.path@.last() == t
        } else {
            c.pos == t
        },
        None => true,
    }
}

/// A collector heading for its deposit takes a unit only on the deposit
/// itself: after a step that reports a collected unit at `pos`, it stands on
/// `pos`.
pub proof fn lemma_collects_on_the_deposit(
    c: Collector,
    n: Collector,
    map: &WorldMap,
    known_resources: &ResourceMap,
    base_pos: Pos,
    others: Seq<Pos>,
    claimed: Set<Pos>,
    claimed2: Set<Pos>,
    msg: Option<RobotMessage>,
)
    requires
        heads_to_target(c),
        step_spec(c, n, map, known_resources, base_pos, others, claimed, claimed2, msg),
    ensures
        msg matches Some(RobotMessage::CollectedUnit { pos, .. }) ==> n.pos == pos,
{
    if c.path@.len() == 1 {
        assert(c.path@.last() == c.path@[0]);
    }
}

/// A step keeps a collector heading for its deposit: a newly claimed deposit
/// is where its path ends, a path shortened by one cell still ends there,
/// and a collector back at the base that can reach its deposit (or stands
/// on it) sets out on a path that ends on it.
pub proof fn lemma_heads_to_target_kept(
    c: Collector,
    n: Collector,
    map: &WorldMap,
    known_resources: &ResourceMap,
    base_pos: Pos,
    others: Seq<Pos>,
    claimed: Set<Pos>,
    claimed2: Set<Pos>,
    msg: Option<RobotMessage>,
)
    requires
        heads_to_target(c),
        step_spec(c, n, map, known_resources, base_pos, others, claimed, claimed2, msg),
        c.state == CollectorState::GoingToBase ==> match c.target {
            Some(t) => c.pos_after_tick() == t || reachable(map, c.pos_after_tick(), t),
            None => true,
        },
    ensures
        heads_to_target(n),
{
    if c.state == CollectorState::GoingToResource && !blocked(c, others, base_pos) && !c.arrives() {
        assert(c.path@.drop_first().last() == c.path@.last());
    }
}

/// Back at the base, a collector whose deposit is still known and can be
/// reached turns back toward it along a shortest walk from where it stands.
pub proof fn lemma_turns_back_along_shortest_walk(
    c: Collector,
    n: Collector,
    map: &WorldMap,
    known_resources: &ResourceMap,
    base_pos: Pos,
    others: Seq<Pos>,
    claimed: Set<Pos>,
    claimed2: Set<Pos>,
    msg: Option<RobotMessage>,
    t: Pos,
)
    requires
        step_spec(c, n, map, known_resources, base_pos, others, claimed, claimed2, msg),
        c.state == CollectorState::GoingToBase,
        !blocked(c, others, base_pos),
        c.arrives(),
        c.target == Some(t),
        known_resources@.contains_key(t),
        n.pos != t,
        reachable(map, n.pos, t),
    ensures
        n.state == CollectorState::GoingToResource,
        n.target == Some(t),
        shortest_walk(map, n.pos, t, n.path@),
{
}

/// Collectors sharing one claimed set: each is consistent, each target is
/// claimed, and no two hold the same target.
pub open spec fn allocation_ok(cs: Seq<Collector>, claimed: Set<Pos>) -> bool {
    &&& forall|i: int| 0 <= i < cs.len() ==> (#[trigger] cs[i]).consistent()
    &&& forall|i: int|
        0 <= i < cs.len() && (#[trigger] cs[i]).target.is_some() ==> claimed.contains(cs[i].target->Some_0)
    &&& forall|i: int, j: int|
        0 <= i < cs.len() && 0 <= j < cs.len() && i != j && (#[trigger] cs[i]).target.is_some()
            ==> cs[i].target != (#[trigger] cs[j]).target
}

/// Fresh collectors, idle and carrying nothing, with an empty claimed set,
/// start in a good allocation.
pub proof fn lemma_allocation_start(cs: Seq<Collector>)
    requires
        forall|i: int|
            0 <= i < cs.len() ==> (#[trigger] cs[i]).state == CollectorState::Idle && cs[i].target.is_none()
                && cs[i].carrying.is_none(),
    ensures
        allocation_ok(cs, Set::empty()),
{
}

/// Each deposit goes to at most one collector: when any one of several
/// collectors sharing a claimed set takes a step, the allocation stays
/// good, so by induction no two collectors ever hold the same target.
pub proof fn lemma_allocation_kept(
    cs: Seq<Collector>,
    i: int,
    n: Collector,
    map: &WorldMap,
    known_resources: &ResourceMap,
    base_pos: Pos,
    others: Seq<Pos>,
    claimed: Set<Pos>,
    claimed2: Set<Pos>,
    msg: Option<RobotMessage>,
)
    requires
        allocation_ok(cs, claimed),
        0 <= i < cs.len(),
        step_spec(cs[i], n, map, known_resources, base_pos, others, claimed, claimed2, msg),
    ensures
        allocation_ok(cs.update(i, n), claimed2),
{
    let c = cs[i];
    let cs2 = cs.update(i, n);
    assert(c.consistent());
    if c.state == CollectorState::Idle {
        lemma_claim_is_free(known_resources.entries(), claimed);
    }
    assert forall|k: int| 0 <= k < cs2.len() implies (#[trigger] cs2[k]).consistent() by {
        if k != i {
            assert(cs2[k] == cs[k]);
        }
    }
    assert forall|k: int| 0 <= k < cs2.len() && (#[trigger] cs2[k]).target.is_some() implies claimed2.contains(
        cs2[k].target->Some_0,
    ) by {
        if k != i {
            assert(cs2[k] == cs[k]);
            let t = cs[k].target->Some_0;
            assert(claimed.contains(t));
            if c.target.is_some() {
                assert(c.target != cs[k].target);
            }
        }
    }
    assert forall|a: int, b: int|
        0 <= a < cs2.len() && 0 <= b < cs2.len() && a != b && (#[trigger] cs2[a]).target.is_some()
            implies cs2[a].target != (#[trigger] cs2[b]).target by {
        if a != i && b != i {
            assert(cs2[a] == cs[a]);
            assert(cs2[b] == cs[b]);
        } else if a == i {
            assert(cs2[b] == cs[b]);
            if n.target != c.target {
                let t = n.target->Some_0;
                if cs[b].target == Some(t) {
                    assert(cs[b].target.is_some());
                    assert(claimed.contains(t));
                }
            }
        } else {
            assert(cs2[a] == cs[a]);
            if n.target != c.target && n.target.is_some() {
                let t = n.target->Some_0;
                assert(cs[a].target.is_some());
                assert(claimed.contains(cs[a].target->Some_0));
            }
        }
    }
}

/// A collector is consistent, carries at most one unit, and carries only
/// on its way back to the base.
pub open spec fn carries_one(c: Collector) -> bool {
    &&& c.consistent()
    &&& c.carrying matches Some((k, a)) ==> a == 1 && c.state == CollectorState::GoingToBase
}

/// One unit at a time: a collector picks up a unit only when it carries
/// nothing, and then carries exactly that one unit; it unloads only what it
/// carries, exactly one unit, under its own id, and then carries nothing.
/// So its pick-ups and unloadings alternate, each unloading of the kind last
/// picked up. A new collector (idle, carrying nothing) satisfies
/// `carries_one`, and every step keeps it.
pub proof fn lemma_one_unit_at_a_time(
    c: Collector,
    n: Collector,
    map: &WorldMap,
    known_resources: &ResourceMap,
    base_pos: Pos,
    others: Seq<Pos>,
    claimed: Set<Pos>,
    claimed2: Set<Pos>,
    msg: Option<RobotMessage>,
)
    requires
        carries_one(c),
        step_spec(c, n, map, known_resources, base_pos, others, claimed, claimed2, msg),
    ensures
        carries_one(n),
        msg matches Some(RobotMessage::CollectedUnit { kind, .. }) ==> c.carrying.is_none() && n.carrying
            == Some((kind, 1u32)),
        msg matches Some(RobotMessage::Unloading { robot_id, kind, amount }) ==> robot_id == c.id && amount
            == 1 && c.carrying == Some((kind, 1u32)) && n.carrying.is_none(),
        msg.is_none() ==> n.carrying == c.carrying || n.carrying.is_none(),
        msg matches Some(m) ==> m is CollectedUnit || m is Unloading,
{
}

/// Whether `p` occurs in `cells`.
fn contains_cell(cells: &Vec<Pos>, p: Pos) -> (r: bool)
    ensures
        r == cells@.contains(p),
{
    let mut i: usize = 0;
    while i < cells.len()
        invariant
            i <= cells@.len(),
            forall|j: int| 0 <= j < i ==> cells@[j] != p,
        decreases cells@.len() - i,
    {
        if cells[i] == p {
            return true;
        }
        i = i + 1;
    }
    false
}

/// The first position, in the order of `known`, that `claimed` lacks.
fn find_unclaimed(known: &ResourceMap, claimed: &PosSet) -> (r: Option<Pos>)
    requires
        known.wf(),
        claimed.wf(),
    ensures
        r == first_unclaimed(known.entries(), claimed@),
{
    let n = known.len();
    let mut i: usize = 0;
    while i < n
        invariant
            known.wf(),
            claimed.wf(),
            n == known.entries().len(),
            i <= n,
            forall|j: int| 0 <= j < i ==> claimed@.contains(#[trigger] known.entries()[j].0),
        decreases n - i,
    {
        let (p, _) = known.entry_at(i);
        if !claimed.contains(&p) {
            proof {
                let es = known.entries();
                let cl = claimed@;
                assert(0 <= i < es.len() && !cl.contains(es[i as int].0) && forall|k: int|
                    0 <= k < i ==> cl.contains(#[trigger] es[k].0));
                let j = choose|j: int|
                    0 <= j < es.len() && !cl.contains(#[trigger] es[j].0) && forall|k: int|
                        0 <= k < j ==> cl.contains(#[trigger] es[k].0);
                if j < i {
                    assert(cl.contains(es[j].0));
                } else if j > i {
                    assert(cl.contains(es[i as int].0));
                }
                assert(j == i);
            }
            return Some(p);
        }
        i = i + 1;
    }
    None
}


} // verus!

