use rand::rngs::ThreadRng;
use vstd::prelude::*;

use crate::collections::PosSet;
use crate::rng::random_index;
use crate::pathfinding::adjacent;
use crate::types::{Pos, Resource, ResourceKind, RobotMessage, Tile, WorldMap};

verus! {

/// The cell at offset `(dx, dy)` from `p`, when both coordinates fit.
pub open spec fn offset(p: Pos, dx: int, dy: int) -> Option<Pos> {
    if 0 <= p.x + dx <= usize::MAX && 0 <= p.y + dy <= usize::MAX {
        Some(Pos { x: (p.x + dx) as usize, y: (p.y + dy) as usize })
    } else {
        None
    }
}

/// What a scout reports of the cell `q`: a deposit or an obstacle that it
/// did not know of; nothing otherwise.
pub open spec fn cell_report(
    map: &WorldMap,
    known_resources: Set<Pos>,
    known_obstacles: Set<Pos>,
    q: Option<Pos>,
) -> Seq<RobotMessage> {
    match q {
        None => Seq::empty(),
        Some(q) => match map.spec_get_tile(q) {
            Some(Tile::Resource(kind)) => if !known_resources.contains(q) {
                seq![
                    RobotMessage::DiscoveredResource {
                        pos: q,
                        resource: Resource {
                            kind,
                            quantity: if map.resources@.contains_key(q) {
                                map.resources@[q].quantity
                            } else {
                                1
                            },
                        },
                    },
                ]
            } else {
                Seq::empty()
            },
            Some(Tile::Obstacle) => if !known_obstacles.contains(q) {
                seq![RobotMessage::DiscoveredObstacle { pos: q }]
            } else {
                Seq::empty()
            },
            _ => Seq::empty(),
        },
    }
}

/// The reports of a scout on `p`: the nine cells around it and under it,
/// row by row from the top left.
pub open spec fn scan_reports(
    map: &WorldMap,
    p: Pos,
    known_resources: Set<Pos>,
    known_obstacles: Set<Pos>,
) -> Seq<RobotMessage> {
    let r = |dx: int, dy: int| cell_report(map, known_resources, known_obstacles, offset(p, dx, dy));
    r(-1, -1) + r(0, -1) + r(1, -1) + r(-1, 0) + r(0, 0) + r(1, 0) + r(-1, 1) + r(0, 1) + r(1, 1)
}

/// The cell `q`, as a move, when a robot may stand on it and it is not a
/// known obstacle.
pub open spec fn candidate(map: &WorldMap, known_obstacles: Set<Pos>, q: Option<Pos>) -> Seq<Pos> {
    match q {
        Some(q) => if map.spec_is_walkable(q) && !known_obstacles.contains(q) {
            seq![q]
        } else {
            Seq::empty()
        },
        None => Seq::empty(),
    }
}

/// The moves open to a scout on `p`: left, right, up, down.
pub open spec fn move_candidates(map: &WorldMap, p: Pos, known_obstacles: Set<Pos>) -> Seq<Pos> {
    candidate(map, known_obstacles, offset(p, -1, 0)) + candidate(map, known_obstacles, offset(p, 1, 0))
        + candidate(map, known_obstacles, offset(p, 0, -1)) + candidate(
        map,
        known_obstacles,
        offset(p, 0, 1),
    )
}

/// Every move open to a scout is one step away, onto a cell a robot may
/// stand on, that is not a known obstacle.
pub proof fn lemma_move_candidates(map: &WorldMap, p: Pos, known_obstacles: Set<Pos>)
    ensures
        forall|i: int|
            0 <= i < move_candidates(map, p, known_obstacles).len() ==> {
                let q = #[trigger] move_candidates(map, p, known_obstacles)[i];
                &&& map.spec_is_walkable(q)
                &&& !known_obstacles.contains(q)
                &&& adjacent(p, q)
            },
{
    let c = |dx: int, dy: int| candidate(map, known_obstacles, offset(p, dx, dy));
    let s = move_candidates(map, p, known_obstacles);
    assert forall|i: int| 0 <= i < s.len() implies {
        let q = #[trigger] s[i];
        &&& map.spec_is_walkable(q)
        &&& !known_obstacles.contains(q)
        &&& adjacent(p, q)
    } by {
        let a = c(-1, 0);
        let b = c(1, 0);
        let d = c(0, -1);
        let e = c(0, 1);
        assert(s == a + b + d + e);
        if i < a.len() {
            assert(s[i] == a[i]);
        } else if i < a.len() + b.len() {
            assert(s[i] == b[i - a.len()]);
        } else if i < a.len() + b.len() + d.len() {
            assert(s[i] == d[i - a.len() - b.len()]);
        } else {
            assert(s[i] == e[i - a.len() - b.len() - d.len()]);
        }
    }
}

proof fn lemma_concat_contains<A>(a: Seq<A>, b: Seq<A>, m: A)
    ensures
        a.contains(m) || b.contains(m) ==> (a + b).contains(m),
{
    if a.contains(m) {
        let i = choose|i: int| 0 <= i < a.len() && a[i] == m;
        assert((a + b)[i] == m);
    } else if b.contains(m) {
        let i = choose|i: int| 0 <= i < b.len() && b[i] == m;
        assert((a + b)[a.len() + i] == m);
    }
}

/// Every open cell one step left, right, up or down from `p` that is not a
/// known obstacle is among the moves open to a scout there.
pub proof fn lemma_move_candidates_complete(map: &WorldMap, p: Pos, known_obstacles: Set<Pos>, w: Pos)
    requires
        adjacent(p, w),
        map.spec_is_walkable(w),
        !known_obstacles.contains(w),
    ensures
        move_candidates(map, p, known_obstacles).contains(w),
{
    let c = |dx: int, dy: int| candidate(map, known_obstacles, offset(p, dx, dy));
    let dx: int = w.x - p.x;
    let dy: int = w.y - p.y;
    assert(offset(p, dx, dy) == Some(w));
    assert(c(dx, dy) == seq![w]);
    assert(c(dx, dy)[0] == w);
    let a = c(-1, 0);
    let b = c(1, 0);
    let d = c(0, -1);
    let e = c(0, 1);
    lemma_concat_contains(a, b, w);
    lemma_concat_contains(a + b, d, w);
    lemma_concat_contains(a + b + d, e, w);
}

/// A scan misses nothing new within one cell of the scout: a deposit there
/// that the scout does not know of is reported with its position and kind
/// (and, when the map holds it, its quantity), and so is an obstacle there
/// that it does not know of.
pub proof fn lemma_scan_complete(
    map: &WorldMap,
    p: Pos,
    known_resources: Set<Pos>,
    known_obstacles: Set<Pos>,
    q: Pos,
)
    requires
        map.spec_in_bounds(q),
        -1 <= q.x - p.x <= 1,
        -1 <= q.y - p.y <= 1,
    ensures
        (map.tile(q) is Resource && !known_resources.contains(q)) ==> exists|m: RobotMessage|
            #[trigger] scan_reports(map, p, known_resources, known_obstacles).contains(m) && (
            m matches RobotMessage::DiscoveredResource { pos, resource } && pos == q && map.tile(q)
                == Tile::Resource(resource.kind) && (map.resources@.contains_key(q)
                ==> resource.quantity == map.resources@[q].quantity)),
        (map.tile(q) == Tile::Obstacle && !known_obstacles.contains(q)) ==> scan_reports(
            map,
            p,
            known_resources,
            known_obstacles,
        ).contains(RobotMessage::DiscoveredObstacle { pos: q }),
{
    let r = |dx: int, dy: int| cell_report(map, known_resources, known_obstacles, offset(p, dx, dy));
    let dx: int = q.x - p.x;
    let dy: int = q.y - p.y;
    assert(offset(p, dx, dy) == Some(q));
    let s = scan_reports(map, p, known_resources, known_obstacles);
    let fresh = (map.tile(q) is Resource && !known_resources.contains(q)) || (map.tile(q)
        == Tile::Obstacle && !known_obstacles.contains(q));
    if fresh {
        let m = r(dx, dy)[0];
        assert(r(dx, dy) == seq![m]);
        assert(r(dx, dy).contains(m));
        let s1 = r(-1, -1);
        let s2 = s1 + r(0, -1);
        let s3 = s2 + r(1, -1);
        let s4 = s3 + r(-1, 0);
        let s5 = s4 + r(0, 0);
        let s6 = s5 + r(1, 0);
        let s7 = s6 + r(-1, 1);
        let s8 = s7 + r(0, 1);
        lemma_concat_contains(s1, r(0, -1), m);
        lemma_concat_contains(s2, r(1, -1), m);
        lemma_concat_contains(s3, r(-1, 0), m);
        lemma_concat_contains(s4, r(0, 0), m);
        lemma_concat_contains(s5, r(1, 0), m);
        lemma_concat_contains(s6, r(-1, 1), m);
        lemma_concat_contains(s7, r(0, 1), m);
        lemma_concat_contains(s8, r(1, 1), m);
        assert(s == s8 + r(1, 1));
        assert(s.contains(m));
    }
}

/// The positions of the deposits reported in `msgs`.
pub open spec fn reported_resources(msgs: Seq<RobotMessage>) -> Set<Pos> {
    Set::new(
        |p: Pos|
            exists|i: int|
                0 <= i < msgs.len() && (#[trigger] msgs[i] matches RobotMessage::DiscoveredResource {
                    pos,
                    ..
                } && pos == p),
    )
}

/// The positions of the obstacles reported in `msgs`.
pub open spec fn reported_obstacles(msgs: Seq<RobotMessage>) -> Set<Pos> {
    Set::new(
        |p: Pos|
            exists|i: int|
                0 <= i < msgs.len() && (#[trigger] msgs[i] matches RobotMessage::DiscoveredObstacle {
                    pos,
                } && pos == p),
    )
}

/// A robot that wanders at random and reports what it sees.
pub struct Scout {
    pub id: usize,
    pub pos: Pos,
    pub known_resources: PosSet,
    pub known_obstacles: PosSet,
}

/// `offset(c, d)` in one coordinate, computed.
fn shift(c: usize, d: i8) -> (r: Option<usize>)
    requires
        -1 <= d <= 1,
    ensures
        r == (if 0 <= c + d <= usize::MAX {
            Some((c + d) as usize)
        } else {
            None::<usize>
        }),
{
    if d < 0 {
        if c == 0 {
            None
        } else {
            Some(c - 1)
        }
    } else if d == 0 {
        Some(c)
    } else {
        if c == usize::MAX {
            None
        } else {
            Some(c + 1)
        }
    }
}

fn offset_exec(p: Pos, dx: i8, dy: i8) -> (r: Option<Pos>)
    requires
        -1 <= dx <= 1,
        -1 <= dy <= 1,
    ensures
        r == offset(p, dx as int, dy as int),
{
    match (shift(p.x, dx), shift(p.y, dy)) {
        (Some(x), Some(y)) => Some(Pos { x, y }),
        _ => None,
    }
}

impl Scout {
    /// The deposits the scout has already reported.
    pub open spec fn known_resources(&self) -> Set<Pos> {
        self.known_resources@
    }

    /// The obstacles the scout has already reported.
    pub open spec fn known_obstacles(&self) -> Set<Pos> {
        self.known_obstacles@
    }

    pub open spec fn wf(&self) -> bool {
        self.known_resources.wf() && self.known_obstacles.wf()
    }

    /// A scout at the base of `map` that knows nothing yet.
    pub fn new(id: usize, map: &WorldMap) -> (r: Self)
        ensures
            r.wf(),
            r.id == id,
            r.pos == map.base_pos,
            r.known_resources() == Set::<Pos>::empty(),
            r.known_obstacles() == Set::<Pos>::empty(),
    {
        Scout { id, pos: map.base_pos, known_resources: PosSet::new(), known_obstacles: PosSet::new() }
    }

    fn report_cell(&self, map: &WorldMap, dx: i8, dy: i8, out: &mut Vec<RobotMessage>)
        requires
            self.wf(),
            map.wf(),
            -1 <= dx <= 1,
            -1 <= dy <= 1,
        ensures
            final(out)@ == old(out)@ + cell_report(
                map,
                self.known_resources(),
                self.known_obstacles(),
                offset(self.pos, dx as int, dy as int),
            ),
    {
        let ghost report = cell_report(
            map,
            self.known_resources(),
            self.known_obstacles(),
            offset(self.pos, dx as int, dy as int),
        );
        match offset_exec(self.pos, dx, dy) {
            None => {
                assert(old(out)@ + report =~= old(out)@);
            },
            Some(q) => match map.get_tile(q) {
                Some(Tile::Resource(kind)) => {
                    if !self.known_resources.contains(&q) {
                        let quantity = match map.resources.get(&q) {
                            Some(r) => r.quantity,
                            None => 1,
                        };
                        out.push(
                            RobotMessage::DiscoveredResource { pos: q, resource: Resource { kind, quantity } },
                        );
                        assert(out@ =~= old(out)@ + report);
                    } else {
                        assert(old(out)@ + report =~= old(out)@);
                    }
                },
                Some(Tile::Obstacle) => {
                    if !self.known_obstacles.contains(&q) {
                        out.push(RobotMessage::DiscoveredObstacle { pos: q });
                        assert(out@ =~= old(out)@ + report);
                    } else {
                        assert(old(out)@ + report =~= old(out)@);
                    }
                },
                _ => {
                    assert(old(out)@ + report =~= old(out)@);
                },
            },
        }
    }

    /// What the scout sees around it that it has not reported yet.
    pub fn scan(&self, map: &WorldMap) -> (r: Vec<RobotMessage>)
        requires
            self.wf(),
            map.wf(),
        ensures
            r@ == scan_reports(map, self.pos, self.known_resources(), self.known_obstacles()),
    {
        let mut out: Vec<RobotMessage> = Vec::new();
        self.report_cell(map, -1, -1, &mut out);
        self.report_cell(map, 0, -1, &mut out);
        self.report_cell(map, 1, -1, &mut out);
        self.report_cell(map, -1, 0, &mut out);
        self.report_cell(map, 0, 0, &mut out);
        self.report_cell(map, 1, 0, &mut out);
        self.report_cell(map, -1, 1, &mut out);
        self.report_cell(map, 0, 1, &mut out);
        self.report_cell(map, 1, 1, &mut out);
        assert(out@ =~= scan_reports(map, self.pos, self.known_resources(), self.known_obstacles()));
        out
    }

    fn add_candidate(&self, map: &WorldMap, dx: i8, dy: i8, out: &mut Vec<Pos>)
        requires
            self.wf(),
            map.wf(),
            -1 <= dx <= 1,
            -1 <= dy <= 1,
        ensures
            final(out)@ == old(out)@ + candidate(
                map,
                self.known_obstacles(),
                offset(self.pos, dx as int, dy as int),
            ),
    {
        let ghost c = candidate(map, self.known_obstacles(), offset(self.pos, dx as int, dy as int));
        match offset_exec(self.pos, dx, dy) {
            Some(q) => {
                if map.is_walkable(q) && !self.known_obstacles.contains(&q) {
                    out.push(q);
                    assert(out@ =~= old(out)@ + c);
                } else {
                    assert(old(out)@ + c =~= old(out)@);
                }
            },
            None => {
                assert(old(out)@ + c =~= old(out)@);
            },
        }
    }

    /// The cells the scout may move to: left, right, up, down, when a robot
    /// may stand there and they are not known obstacles.
    pub fn walkable_neighbors(&self, map: &WorldMap) -> (r: Vec<Pos>)
        requires
            self.wf(),
            map.wf(),
        ensures
            r@ == move_candidates(map, self.pos, self.known_obstacles()),
    {
        let mut out: Vec<Pos> = Vec::new();
        self.add_candidate(map, -1, 0, &mut out);
        self.add_candidate(map, 1, 0, &mut out);
        self.add_candidate(map, 0, -1, &mut out);
        self.add_candidate(map, 0, 1, &mut out);
        assert(out@ =~= move_candidates(map, self.pos, self.known_obstacles()));
        out
    }

    /// One of `candidates`, drawn at random, or `None` when there is none.
    pub fn pick_move(&self, rng: &mut ThreadRng, candidates: &Vec<Pos>) -> (r: Option<Pos>)
        ensures
            candidates@.len() == 0 <==> r.is_none(),
            r matches Some(p) ==> candidates@.contains(p),
    {
        if candidates.len() == 0 {
            return None;
        }
        let i = random_index(rng, candidates.len());
        assert(candidates@[i as int] == candidates[i as int]);
        Some(candidates[i])
    }

    /// One turn of the scout: it reports, in `outbox`, the deposits and
    /// obstacles around it that it has not reported before, remembers them,
    /// and moves to one of its open neighbouring cells, drawn at random, if
    /// it has one. Returns where it stands.
    pub fn step(&mut self, map: &WorldMap, rng: &mut ThreadRng, outbox: &mut Vec<RobotMessage>) -> (r: Pos)
        requires
            old(self).wf(),
            map.wf(),
        ensures
            final(self).wf(),
            final(self).id == old(self).id,
            final(outbox)@ == old(outbox)@ + scan_reports(
                map,
                old(self).pos,
                old(self).known_resources(),
                old(self).known_obstacles(),
            ),
            final(self).known_resources() == old(self).known_resources().union(
                reported_resources(
                    scan_reports(map, old(self).pos, old(self).known_resources(), old(self).known_obstacles()),
                ),
            ),
            final(self).known_obstacles() == old(self).known_obstacles().union(
                reported_obstacles(
                    scan_reports(map, old(self).pos, old(self).known_resources(), old(self).known_obstacles()),
                ),
            ),
            r == final(self).pos,
            move_candidates(map, old(self).pos, old(self).known_obstacles()).len() == 0 ==> r == old(self).pos,
            move_candidates(map, old(self).pos, old(self).known_obstacles()).len() > 0 ==> move_candidates(
                map,
                old(self).pos,
                old(self).known_obstacles(),
            ).contains(r),
            r != old(self).pos ==> {
                &&& map.spec_is_walkable(r)
                &&& !old(self).known_obstacles().contains(r)
                &&& adjacent(old(self).pos, r)
            },
            map.spec_in_bounds(old(self).pos) ==> map.spec_in_bounds(r),
            scout_step_spec(*old(self), *final(self), map),
    {
        proof {
            lemma_move_candidates(map, self.pos, self.known_obstacles@);
        }
        let messages = self.scan(map);
        let candidates = self.walkable_neighbors(map);
        let next: Option<usize> = if candidates.len() > 0 {
            Some(random_index(rng, candidates.len()))
        } else {
            None
        };
        let ghost kr0 = self.known_resources@;
        let ghost ko0 = self.known_obstacles@;
        let ghost out0 = outbox@;
        let mut i: usize = 0;
        while i < messages.len()
            invariant
                self.known_resources.wf(),
                self.known_obstacles.wf(),
                i <= messages@.len(),
                self.known_resources@ == kr0.union(reported_resources(messages@.take(i as int))),
                self.known_obstacles@ == ko0.union(reported_obstacles(messages@.take(i as int))),
                outbox@ == out0 + messages@.take(i as int),
                self.pos == old(self).pos,
                self.id == old(self).id,
            decreases messages@.len() - i,
        {
            let msg = messages[i];
            let ghost t0 = messages@.take(i as int);
            let ghost t1 = messages@.take(i + 1);
            assert(t1 =~= t0.push(msg));
            match msg {
                RobotMessage::DiscoveredResource { pos, .. } => {
                    self.known_resources.insert(pos);
                },
                RobotMessage::DiscoveredObstacle { pos } => {
                    self.known_obstacles.insert(pos);
                },
                _ => {},
            }
            outbox.push(msg);
            proof {
                assert(t1 =~= t0 + seq![msg]);
                lemma_reported_concat(t0, seq![msg]);
                match msg {
                    RobotMessage::DiscoveredResource { pos, .. } => {
                        assert(reported_resources(seq![msg]) =~= set![pos]) by {
                            assert(seq![msg][0] == msg);
                        }
                        assert(reported_obstacles(seq![msg]) =~= Set::<Pos>::empty());
                    },
                    RobotMessage::DiscoveredObstacle { pos } => {
                        assert(reported_obstacles(seq![msg]) =~= set![pos]) by {
                            assert(seq![msg][0] == msg);
                        }
                        assert(reported_resources(seq![msg]) =~= Set::<Pos>::empty());
                    },
                    _ => {
                        assert(reported_resources(seq![msg]) =~= Set::<Pos>::empty());
                        assert(reported_obstacles(seq![msg]) =~= Set::<Pos>::empty());
                    },
                }
                assert(outbox@ =~= out0 + t1);
            }
            i = i + 1;
        }
        assert(messages@.take(messages@.len() as int) =~= messages@);
        if let Some(k) = next {
            self.move_to(&candidates, k);
        }
        self.pos
    }

    /// Moves the scout to `candidates[i]`; what it knows stays as it is.
    pub fn move_to(&mut self, candidates: &Vec<Pos>, i: usize)
        requires
            i < candidates@.len(),
        ensures
            final(self).pos == candidates@[i as int],
            final(self).id == old(self).id,
            final(self).known_resources == old(self).known_resources,
            final(self).known_obstacles == old(self).known_obstacles,
    {
        self.pos = candidates[i];
    }
}

/// `m` reports a deposit or an obstacle outside the known ones.
pub open spec fn fresh_report(known_resources: Set<Pos>, known_obstacles: Set<Pos>, m: RobotMessage) -> bool {
    match m {
        RobotMessage::DiscoveredResource { pos, .. } => !known_resources.contains(pos),
        RobotMessage::DiscoveredObstacle { pos } => !known_obstacles.contains(pos),
        _ => false,
    }
}

/// `m` is fresh and true of the map: a reported obstacle stands on an
/// obstacle tile, a reported deposit on a deposit tile.
pub open spec fn sound_report(map: &WorldMap, known_resources: Set<Pos>, known_obstacles: Set<Pos>, m: RobotMessage) -> bool {
    &&& fresh_report(known_resources, known_obstacles, m)
    &&& m matches RobotMessage::DiscoveredObstacle { pos } ==> map.spec_in_bounds(pos) && map.tile(pos)
        == Tile::Obstacle
    &&& m matches RobotMessage::DiscoveredResource { pos, .. } ==> map.spec_in_bounds(pos) && map.tile(pos)
        is Resource
}

/// The position a message is about.
pub open spec fn msg_pos(m: RobotMessage) -> Pos {
    match m {
        RobotMessage::DiscoveredResource { pos, .. } => pos,
        RobotMessage::DiscoveredObstacle { pos } => pos,
        RobotMessage::CollectedUnit { pos, .. } => pos,
        RobotMessage::Unloading { .. } => Pos { x: 0, y: 0 },
    }
}

/// Where the cell of `m` lies around `p`, counted row by row from the top left.
spec fn scan_key(p: Pos, m: RobotMessage) -> int {
    3 * (msg_pos(m).y - p.y) + (msg_pos(m).x - p.x)
}

spec fn all_sound(map: &WorldMap, kr: Set<Pos>, ko: Set<Pos>, s: Seq<RobotMessage>) -> bool {
    forall|j: int| 0 <= j < s.len() ==> sound_report(map, kr, ko, #[trigger] s[j])
}

/// The keys of `s` increase strictly and stay at most `bound`.
spec fn keys_below(p: Pos, s: Seq<RobotMessage>, bound: int) -> bool {
    &&& forall|i: int, j: int| 0 <= i < j < s.len() ==> scan_key(p, #[trigger] s[i]) < scan_key(p, #[trigger] s[j])
    &&& forall|i: int| 0 <= i < s.len() ==> scan_key(p, #[trigger] s[i]) <= bound
}

proof fn lemma_scan_concat(
    map: &WorldMap,
    kr: Set<Pos>,
    ko: Set<Pos>,
    p: Pos,
    a: Seq<RobotMessage>,
    b: Seq<RobotMessage>,
    bound: int,
)
    requires
        all_sound(map, kr, ko, a),
        all_sound(map, kr, ko, b),
        keys_below(p, a, bound - 1),
        b.len() <= 1,
        forall|i: int| 0 <= i < b.len() ==> scan_key(p, #[trigger] b[i]) == bound,
    ensures
        all_sound(map, kr, ko, a + b),
        keys_below(p, a + b, bound),
{
    let c = a + b;
    assert forall|j: int| 0 <= j < c.len() implies sound_report(map, kr, ko, #[trigger] c[j]) by {
        if j >= a.len() {
            assert(c[j] == b[j - a.len()]);
        } else {
            assert(c[j] == a[j]);
        }
    }
    assert forall|i: int, j: int| 0 <= i < j < c.len() implies scan_key(p, #[trigger] c[i]) < scan_key(
        p,
        #[trigger] c[j],
    ) by {
        assert(c[i] == a[i]);
        if j >= a.len() {
            assert(c[j] == b[j - a.len()]);
        } else {
            assert(c[j] == a[j]);
        }
    }
    assert forall|i: int| 0 <= i < c.len() implies scan_key(p, #[trigger] c[i]) <= bound by {
        if i >= a.len() {
            assert(c[i] == b[i - a.len()]);
        } else {
            assert(c[i] == a[i]);
        }
    }
}

proof fn lemma_cell_report(map: &WorldMap, kr: Set<Pos>, ko: Set<Pos>, p: Pos, dx: int, dy: int)
    requires
        -1 <= dx <= 1,
        -1 <= dy <= 1,
    ensures
        all_sound(map, kr, ko, cell_report(map, kr, ko, offset(p, dx, dy))),
        cell_report(map, kr, ko, offset(p, dx, dy)).len() <= 1,
        forall|i: int|
            0 <= i < cell_report(map, kr, ko, offset(p, dx, dy)).len() ==> scan_key(
                p,
                #[trigger] cell_report(map, kr, ko, offset(p, dx, dy))[i],
            ) == 3 * dy + dx,
{
}

/// Every report of a scan is sound, and the cells of the reports come row
/// by row from the top left, so no two reports of one scan are about the
/// same cell.
pub proof fn lemma_scan_reports_sound(map: &WorldMap, p: Pos, known_resources: Set<Pos>, known_obstacles: Set<Pos>)
    ensures
        forall|i: int|
            0 <= i < scan_reports(map, p, known_resources, known_obstacles).len() ==> sound_report(
                map,
                known_resources,
                known_obstacles,
                #[trigger] scan_reports(map, p, known_resources, known_obstacles)[i],
            ),
        forall|i: int, j: int|
            0 <= i < j < scan_reports(map, p, known_resources, known_obstacles).len() ==> msg_pos(
                #[trigger] scan_reports(map, p, known_resources, known_obstacles)[i],
            ) != msg_pos(#[trigger] scan_reports(map, p, known_resources, known_obstacles)[j]),
{
    let kr = known_resources;
    let ko = known_obstacles;
    let c = |dx: int, dy: int| cell_report(map, kr, ko, offset(p, dx, dy));
    lemma_cell_report(map, kr, ko, p, -1, -1);
    lemma_cell_report(map, kr, ko, p, 0, -1);
    lemma_cell_report(map, kr, ko, p, 1, -1);
    lemma_cell_report(map, kr, ko, p, -1, 0);
    lemma_cell_report(map, kr, ko, p, 0, 0);
    lemma_cell_report(map, kr, ko, p, 1, 0);
    lemma_cell_report(map, kr, ko, p, -1, 1);
    lemma_cell_report(map, kr, ko, p, 0, 1);
    lemma_cell_report(map, kr, ko, p, 1, 1);
    let s0 = c(-1, -1);
    assert(keys_below(p, s0, -4));
    let s1 = s0 + c(0, -1);
    lemma_scan_concat(map, kr, ko, p, s0, c(0, -1), -3);
    let s2 = s1 + c(1, -1);
    lemma_scan_concat(map, kr, ko, p, s1, c(1, -1), -2);
    let s3 = s2 + c(-1, 0);
    lemma_scan_concat(map, kr, ko, p, s2, c(-1, 0), -1);
    let s4 = s3 + c(0, 0);
    lemma_scan_concat(map, kr, ko, p, s3, c(0, 0), 0);
    let s5 = s4 + c(1, 0);
    lemma_scan_concat(map, kr, ko, p, s4, c(1, 0), 1);
    let s6 = s5 + c(-1, 1);
    lemma_scan_concat(map, kr, ko, p, s5, c(-1, 1), 2);
    let s7 = s6 + c(0, 1);
    lemma_scan_concat(map, kr, ko, p, s6, c(0, 1), 3);
    let s8 = s7 + c(1, 1);
    lemma_scan_concat(map, kr, ko, p, s7, c(1, 1), 4);
    let msgs = scan_reports(map, p, kr, ko);
    assert(msgs == s8);
    assert forall|i: int, j: int| 0 <= i < j < msgs.len() implies msg_pos(#[trigger] msgs[i]) != msg_pos(
        #[trigger] msgs[j],
    ) by {
        assert(scan_key(p, msgs[i]) < scan_key(p, msgs[j]));
    }
}

/// Every report of a scan is fresh: a scout never reports a deposit or an
/// obstacle that it already knows of.
pub proof fn lemma_scan_skips_known(map: &WorldMap, p: Pos, known_resources: Set<Pos>, known_obstacles: Set<Pos>)
    ensures
        forall|i: int|
            0 <= i < scan_reports(map, p, known_resources, known_obstacles).len() ==> fresh_report(
                known_resources,
                known_obstacles,
                #[trigger] scan_reports(map, p, known_resources, known_obstacles)[i],
            ),
        reported_resources(scan_reports(map, p, known_resources, known_obstacles)).disjoint(known_resources),
        reported_obstacles(scan_reports(map, p, known_resources, known_obstacles)).disjoint(known_obstacles),
{
    let kr = known_resources;
    let ko = known_obstacles;
    lemma_scan_reports_sound(map, p, kr, ko);
    let msgs = scan_reports(map, p, kr, ko);
    assert forall|i: int| 0 <= i < msgs.len() implies fresh_report(kr, ko, #[trigger] msgs[i]) by {
        assert(sound_report(map, kr, ko, msgs[i]));
    }
    assert forall|q: Pos| reported_resources(msgs).contains(q) implies !kr.contains(q) by {
        let i = choose|i: int|
            0 <= i < msgs.len() && (#[trigger] msgs[i] matches RobotMessage::DiscoveredResource {
                pos,
                ..
            } && pos == q);
        assert(fresh_report(kr, ko, msgs[i]));
    }
    assert forall|q: Pos| reported_obstacles(msgs).contains(q) implies !ko.contains(q) by {
        let i = choose|i: int|
            0 <= i < msgs.len() && (#[trigger] msgs[i] matches RobotMessage::DiscoveredObstacle {
                pos,
            } && pos == q);
        assert(fresh_report(kr, ko, msgs[i]));
    }
}

/// A deposit is reported at most once: whatever a scout reported in one
/// turn, it remembers, and no later scan, from wherever it stands then,
/// reports it again.
pub proof fn lemma_reported_once(
    map: &WorldMap,
    p1: Pos,
    kr1: Set<Pos>,
    ko1: Set<Pos>,
    later_map: &WorldMap,
    p2: Pos,
    kr2: Set<Pos>,
    ko2: Set<Pos>,
)
    requires
        kr1.union(reported_resources(scan_reports(map, p1, kr1, ko1))).subset_of(kr2),
    ensures
        reported_resources(scan_reports(later_map, p2, kr2, ko2)).disjoint(
            reported_resources(scan_reports(map, p1, kr1, ko1)),
        ),
{
    lemma_scan_skips_known(later_map, p2, kr2, ko2);
}

/// What one turn does to a scout `s` on `map`, giving `s2`.
pub open spec fn scout_step_spec(s: Scout, s2: Scout, map: &WorldMap) -> bool {
    let reports = scan_reports(map, s.pos, s.known_resources(), s.known_obstacles());
    let cands = move_candidates(map, s.pos, s.known_obstacles());
    &&& s2.wf()
    &&& s2.id == s.id
    &&& s2.known_resources() == s.known_resources().union(reported_resources(reports))
    &&& s2.known_obstacles() == s.known_obstacles().union(reported_obstacles(reports))
    &&& cands.len() == 0 ==> s2.pos == s.pos
    &&& cands.len() > 0 ==> cands.contains(s2.pos)
}

/// Two maps of the same size with obstacles on the same cells.
pub open spec fn same_obstacles(m1: &WorldMap, m2: &WorldMap) -> bool {
    &&& m1.width == m2.width
    &&& m1.height == m2.height
    &&& forall|p: Pos|
        #![trigger m1.tile(p)]
        #![trigger m2.tile(p)]
        m1.spec_in_bounds(p) ==> (m1.tile(p) == Tile::Obstacle <==> m2.tile(p) == Tile::Obstacle)
}

/// No position is reported twice as a deposit, nor twice as an obstacle.
pub open spec fn reports_distinct(sent: Seq<RobotMessage>) -> bool {
    forall|i: int, j: int|
        0 <= i < j < sent.len() && ((sent[i] is DiscoveredResource && sent[j] is DiscoveredResource) || (
        sent[i] is DiscoveredObstacle && sent[j] is DiscoveredObstacle)) ==> msg_pos(#[trigger] sent[i])
            != msg_pos(#[trigger] sent[j])
}

/// The record of a scout that has sent `sent`: it knows exactly what it has
/// reported, it has reported no position twice, the obstacles it knows of
/// are obstacles of the map, and it stands on a cell a robot may stand on
/// that is not a known obstacle.
pub open spec fn scout_history(s: Scout, map: &WorldMap, sent: Seq<RobotMessage>) -> bool {
    &&& s.wf()
    &&& s.known_resources() == reported_resources(sent)
    &&& s.known_obstacles() == reported_obstacles(sent)
    &&& reports_distinct(sent)
    &&& forall|p: Pos| #[trigger]
        s.known_obstacles().contains(p) ==> map.spec_in_bounds(p) && map.tile(p) == Tile::Obstacle
    &&& map.spec_is_walkable(s.pos)
    &&& !s.known_obstacles().contains(s.pos)
}

proof fn lemma_reported_concat(a: Seq<RobotMessage>, b: Seq<RobotMessage>)
    ensures
        reported_resources(a + b) == reported_resources(a).union(reported_resources(b)),
        reported_obstacles(a + b) == reported_obstacles(a).union(reported_obstacles(b)),
{
    let c = a + b;
    assert forall|p: Pos| #[trigger] reported_resources(c).contains(p) <==> reported_resources(a).union(
        reported_resources(b),
    ).contains(p) by {
        if reported_resources(c).contains(p) {
            let j = choose|j: int|
                0 <= j < c.len() && (#[trigger] c[j] matches RobotMessage::DiscoveredResource { pos, .. }
                    && pos == p);
            if j < a.len() {
                assert(a[j] == c[j]);
            } else {
                assert(b[j - a.len()] == c[j]);
            }
        }
        if reported_resources(a).contains(p) {
            let j = choose|j: int|
                0 <= j < a.len() && (#[trigger] a[j] matches RobotMessage::DiscoveredResource { pos, .. }
                    && pos == p);
            assert(c[j] == a[j]);
        }
        if reported_resources(b).contains(p) {
            let j = choose|j: int|
                0 <= j < b.len() && (#[trigger] b[j] matches RobotMessage::DiscoveredResource { pos, .. }
                    && pos == p);
            assert(c[a.len() + j] == b[j]);
        }
    }
    assert forall|p: Pos| #[trigger] reported_obstacles(c).contains(p) <==> reported_obstacles(a).union(
        reported_obstacles(b),
    ).contains(p) by {
        if reported_obstacles(c).contains(p) {
            let j = choose|j: int|
                0 <= j < c.len() && (#[trigger] c[j] matches RobotMessage::DiscoveredObstacle { pos }
                    && pos == p);
            if j < a.len() {
                assert(a[j] == c[j]);
            } else {
                assert(b[j - a.len()] == c[j]);
            }
        }
        if reported_obstacles(a).contains(p) {
            let j = choose|j: int|
                0 <= j < a.len() && (#[trigger] a[j] matches RobotMessage::DiscoveredObstacle { pos }
                    && pos == p);
            assert(c[j] == a[j]);
        }
        if reported_obstacles(b).contains(p) {
            let j = choose|j: int|
                0 <= j < b.len() && (#[trigger] b[j] matches RobotMessage::DiscoveredObstacle { pos }
                    && pos == p);
            assert(c[a.len() + j] == b[j]);
        }
    }
    assert(reported_resources(c) =~= reported_resources(a).union(reported_resources(b)));
    assert(reported_obstacles(c) =~= reported_obstacles(a).union(reported_obstacles(b)));
}

/// A new scout that stands on a cell a robot may stand on starts a good
/// record with nothing sent.
pub proof fn lemma_scout_history_start(s: Scout, map: &WorldMap)
    requires
        s.wf(),
        s.known_resources() == Set::<Pos>::empty(),
        s.known_obstacles() == Set::<Pos>::empty(),
        map.spec_is_walkable(s.pos),
    ensures
        scout_history(s, map, Seq::empty()),
{
    assert(reported_resources(Seq::<RobotMessage>::empty()) =~= Set::<Pos>::empty());
    assert(reported_obstacles(Seq::<RobotMessage>::empty()) =~= Set::<Pos>::empty());
}

/// Over any sequence of turns, on maps whose obstacles do not change: each
/// turn keeps a good record, so a scout never reports a deposit twice nor
/// an obstacle twice, and after every turn it stands on the map, on a cell
/// a robot may stand on, off every obstacle it knows of, where it stood or
/// one step away.
pub proof fn lemma_scout_history_kept(s: Scout, s2: Scout, map: &WorldMap, map2: &WorldMap, sent: Seq<RobotMessage>)
    requires
        scout_history(s, map, sent),
        same_obstacles(map, map2),
        scout_step_spec(s, s2, map2),
    ensures
        scout_history(
            s2,
            map2,
            sent + scan_reports(map2, s.pos, s.known_resources(), s.known_obstacles()),
        ),
        s2.pos == s.pos || adjacent(s.pos, s2.pos),
        map2.spec_in_bounds(s2.pos),
{
    let kr = s.known_resources();
    let ko = s.known_obstacles();
    let r = scan_reports(map2, s.pos, kr, ko);
    let all = sent + r;
    lemma_scan_reports_sound(map2, s.pos, kr, ko);
    lemma_reported_concat(sent, r);
    lemma_move_candidates(map2, s.pos, ko);
    // obstacles known after the turn are obstacles of `map2`
    assert forall|p: Pos| #[trigger] s2.known_obstacles().contains(p) implies map2.spec_in_bounds(p)
        && map2.tile(p) == Tile::Obstacle by {
        if ko.contains(p) {
            assert(map.tile(p) == Tile::Obstacle);
        } else {
            let j = choose|j: int|
                0 <= j < r.len() && (#[trigger] r[j] matches RobotMessage::DiscoveredObstacle { pos }
                    && pos == p);
            assert(sound_report(map2, kr, ko, r[j]));
        }
    }
    // where the scout stands
    if s2.pos == s.pos {
        assert(map.tile(s.pos) != Tile::Obstacle);
        assert(map2.spec_is_walkable(s2.pos));
    } else {
        let cands = move_candidates(map2, s.pos, ko);
        let k = choose|k: int| 0 <= k < cands.len() && cands[k] == s2.pos;
        assert(map2.spec_is_walkable(cands[k]));
    }
    assert(!s2.known_obstacles().contains(s2.pos)) by {
        if s2.known_obstacles().contains(s2.pos) {
            assert(map2.tile(s2.pos) == Tile::Obstacle);
        }
    }
    // no position twice
    assert forall|i: int, j: int|
        0 <= i < j < all.len() && ((all[i] is DiscoveredResource && all[j] is DiscoveredResource) || (
        all[i] is DiscoveredObstacle && all[j] is DiscoveredObstacle)) implies msg_pos(#[trigger] all[i])
        != msg_pos(#[trigger] all[j]) by {
        if j < sent.len() {
            assert(all[i] == sent[i]);
            assert(all[j] == sent[j]);
        } else if i >= sent.len() {
            assert(all[i] == r[i - sent.len()]);
            assert(all[j] == r[j - sent.len()]);
        } else {
            assert(all[i] == sent[i]);
            assert(all[j] == r[j - sent.len()]);
            assert(sound_report(map2, kr, ko, r[j - sent.len()]));
            if all[i] is DiscoveredResource {
                assert(reported_resources(sent).contains(msg_pos(sent[i])));
            } else {
                assert(reported_obstacles(sent).contains(msg_pos(sent[i])));
            }
        }
    }
}

} // verus!
