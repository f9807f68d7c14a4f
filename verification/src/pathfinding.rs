use vstd::prelude::*;

use crate::types::{Pos, Tile, WorldMap};

verus! {

/// A robot on its way may stand on `p`: it lies on the map and holds no obstacle.
pub open spec fn passable(map: &WorldMap, p: Pos) -> bool {
    map.spec_in_bounds(p) && map.tile(p) != Tile::Obstacle
}

/// `a` and `b` are one step apart horizontally or vertically.
pub open spec fn adjacent(a: Pos, b: Pos) -> bool {
    ||| a.y == b.y && (a.x + 1 == b.x || b.x + 1 == a.x)
    ||| a.x == b.x && (a.y + 1 == b.y || b.y + 1 == a.y)
}

/// `path` lists the cells that a robot standing on `start` enters, one step
/// at a time, each one passable.
pub open spec fn is_walk(map: &WorldMap, start: Pos, path: Seq<Pos>) -> bool {
    forall|i: int|
        0 <= i < path.len() ==> passable(map, #[trigger] path[i]) && adjacent(
            if i == 0 {
                start
            } else {
                path[i - 1]
            },
            path[i],
        )
}

/// `path` is a walk from `start` that ends on `goal`.
pub open spec fn walk_to(map: &WorldMap, start: Pos, goal: Pos, path: Seq<Pos>) -> bool {
    path.len() > 0 && is_walk(map, start, path) && path.last() == goal
}

/// Some walk leads from `start` to `goal`.
pub open spec fn reachable(map: &WorldMap, start: Pos, goal: Pos) -> bool {
    exists|q: Seq<Pos>| walk_to(map, start, goal, q)
}

/// `path` is a walk to `goal` that no walk from `start` to `goal` beats in length.
pub open spec fn shortest_walk(map: &WorldMap, start: Pos, goal: Pos, path: Seq<Pos>) -> bool {
    &&& walk_to(map, start, goal, path)
    &&& forall|q: Seq<Pos>| walk_to(map, start, goal, q) ==> path.len() <= q.len()
}

/// What a search from `start` to `goal` gives: nothing when the robot is
/// already there or cannot get there, else a shortest walk, the first of the
/// shortest walks in the order of `walk_before` (at the first cell where two
/// of them part, the one that steps left, then right, then up, then down).
pub open spec fn search_result(map: &WorldMap, start: Pos, goal: Pos, r: Seq<Pos>) -> bool {
    if start != goal && reachable(map, start, goal) {
        &&& shortest_walk(map, start, goal, r)
        &&& forall|q: Seq<Pos>|
            walk_to(map, start, goal, q) && q.len() == r.len() ==> !#[trigger] walk_before(start, q, r)
    } else {
        r.len() == 0
    }
}

/// The direction of the step from `a` to the next cell `b`, numbered in the
/// order left, right, up, down.
pub open spec fn dir_code(a: Pos, b: Pos) -> int {
    if b.y == a.y && b.x + 1 == a.x {
        0
    } else if b.y == a.y && a.x + 1 == b.x {
        1
    } else if b.x == a.x && b.y + 1 == a.y {
        2
    } else {
        3
    }
}

/// Paths `a` and `b` of one length, each from its first cell, agree up to
/// some cell, and from there `a` steps in an earlier direction (left, right,
/// up, down) than `b`.
pub open spec fn path_before(a: Seq<Pos>, b: Seq<Pos>) -> bool {
    exists|k: int|
        #![trigger a.take(k), b.take(k)]
        1 <= k < a.len() && a.len() == b.len() && a.take(k) == b.take(k) && dir_code(a[k - 1], a[k])
            < dir_code(a[k - 1], b[k])
}

/// Walk `a` from `start` comes before walk `b` from `start`.
pub open spec fn walk_before(start: Pos, a: Seq<Pos>, b: Seq<Pos>) -> bool {
    path_before(seq![start] + a, seq![start] + b)
}

/// `a` is a path from `start`: `start`, then a walk from it.
pub open spec fn path_from(map: &WorldMap, start: Pos, a: Seq<Pos>) -> bool {
    a.len() >= 1 && a[0] == start && is_walk(map, start, a.drop_first())
}

proof fn lemma_path_adjacent(map: &WorldMap, start: Pos, a: Seq<Pos>, k: int)
    requires
        path_from(map, start, a),
        1 <= k < a.len(),
    ensures
        adjacent(a[k - 1], a[k]),
{
    let w = a.drop_first();
    assert(w[k - 1] == a[k]);
    assert(passable(map, w[k - 1]));
    if k > 1 {
        assert(w[k - 2] == a[k - 1]);
    }
}

proof fn lemma_code_injective(p: Pos, x: Pos, y: Pos)
    requires
        adjacent(p, x),
        adjacent(p, y),
        dir_code(p, x) == dir_code(p, y),
    ensures
        x == y,
{
}

proof fn lemma_before_asymmetric(a: Seq<Pos>, b: Seq<Pos>)
    requires
        path_before(a, b),
    ensures
        !path_before(b, a),
        a != b,
{
    let k = choose|k: int|
        #![trigger a.take(k), b.take(k)]
        1 <= k < a.len() && a.len() == b.len() && a.take(k) == b.take(k) && dir_code(a[k - 1], a[k])
            < dir_code(a[k - 1], b[k]);
    assert(a[k - 1] == a.take(k)[k - 1]);
    assert(b[k - 1] == b.take(k)[k - 1]);
    if path_before(b, a) {
        let k2 = choose|k2: int|
            #![trigger b.take(k2), a.take(k2)]
            1 <= k2 < b.len() && b.len() == a.len() && b.take(k2) == a.take(k2) && dir_code(b[k2 - 1], b[k2])
                < dir_code(b[k2 - 1], a[k2]);
        assert(b[k2 - 1] == b.take(k2)[k2 - 1]);
        assert(a[k2 - 1] == a.take(k2)[k2 - 1]);
        if k2 < k {
            assert(a.take(k)[k2] == b.take(k)[k2]);
        } else if k < k2 {
            assert(a.take(k2)[k] == b.take(k2)[k]);
        }
    }
    if a == b {
    }
}

proof fn lemma_before_transitive(a: Seq<Pos>, b: Seq<Pos>, c: Seq<Pos>)
    requires
        path_before(a, b),
        path_before(b, c),
    ensures
        path_before(a, c),
{
    let k1 = choose|k: int|
        #![trigger a.take(k), b.take(k)]
        1 <= k < a.len() && a.len() == b.len() && a.take(k) == b.take(k) && dir_code(a[k - 1], a[k])
            < dir_code(a[k - 1], b[k]);
    let k2 = choose|k: int|
        #![trigger b.take(k), c.take(k)]
        1 <= k < b.len() && b.len() == c.len() && b.take(k) == c.take(k) && dir_code(b[k - 1], b[k])
            < dir_code(b[k - 1], c[k]);
    assert(a[k1 - 1] == a.take(k1)[k1 - 1]);
    assert(b[k1 - 1] == b.take(k1)[k1 - 1]);
    assert(b[k2 - 1] == b.take(k2)[k2 - 1]);
    assert(c[k2 - 1] == c.take(k2)[k2 - 1]);
    if k1 < k2 {
        assert(b.take(k2).take(k1) == b.take(k1));
        assert(c.take(k2).take(k1) == c.take(k1));
        assert(a.take(k1) == c.take(k1));
        assert(b.take(k2)[k1] == c.take(k2)[k1]);
        assert(b[k1] == c[k1]);
        assert(path_before(a, c));
    } else if k2 < k1 {
        assert(a.take(k1).take(k2) == a.take(k2));
        assert(b.take(k1).take(k2) == b.take(k2));
        assert(a.take(k2) == c.take(k2));
        assert(a.take(k1)[k2] == b.take(k1)[k2]);
        assert(a[k2] == b[k2]);
        assert(a[k2 - 1] == a.take(k2)[k2 - 1]);
        assert(path_before(a, c));
    } else {
        assert(a.take(k1) == c.take(k1));
        assert(path_before(a, c));
    }
}

/// Two different paths of one length from one cell: one comes before the other.
proof fn lemma_before_total(map: &WorldMap, start: Pos, a: Seq<Pos>, b: Seq<Pos>)
    requires
        path_from(map, start, a),
        path_from(map, start, b),
        a.len() == b.len(),
        a != b,
    ensures
        path_before(a, b) || path_before(b, a),
{
    lemma_before_total_from(map, start, a, b, 1);
}

proof fn lemma_before_total_from(map: &WorldMap, start: Pos, a: Seq<Pos>, b: Seq<Pos>, k: int)
    requires
        path_from(map, start, a),
        path_from(map, start, b),
        a.len() == b.len(),
        a != b,
        1 <= k <= a.len(),
        forall|j: int| 0 <= j < k ==> a[j] == b[j],
    ensures
        path_before(a, b) || path_before(b, a),
    decreases a.len() - k,
{
    if k == a.len() {
        assert(a =~= b);
    } else if a[k] == b[k] {
        lemma_before_total_from(map, start, a, b, k + 1);
    } else {
        assert(a.take(k) =~= b.take(k));
        lemma_path_adjacent(map, start, a, k);
        lemma_path_adjacent(map, start, b, k);
        if dir_code(a[k - 1], a[k]) == dir_code(a[k - 1], b[k]) {
            lemma_code_injective(a[k - 1], a[k], b[k]);
        }
        if dir_code(a[k - 1], a[k]) < dir_code(a[k - 1], b[k]) {
            assert(path_before(a, b));
        } else {
            assert(b.take(k) =~= a.take(k));
            assert(path_before(b, a));
        }
    }
}

proof fn lemma_before_extend(a: Seq<Pos>, b: Seq<Pos>, x: Pos, y: Pos)
    requires
        path_before(a, b),
    ensures
        path_before(a.push(x), b.push(y)),
{
    let k = choose|k: int|
        #![trigger a.take(k), b.take(k)]
        1 <= k < a.len() && a.len() == b.len() && a.take(k) == b.take(k) && dir_code(a[k - 1], a[k])
            < dir_code(a[k - 1], b[k]);
    assert(a.push(x).take(k) =~= a.take(k));
    assert(b.push(y).take(k) =~= b.take(k));
    assert(a.push(x)[k - 1] == a[k - 1]);
    assert(a.push(x)[k] == a[k]);
    assert(b.push(y)[k] == b[k]);
}

proof fn lemma_before_sibling(a: Seq<Pos>, x: Pos, y: Pos)
    requires
        a.len() >= 1,
        dir_code(a.last(), x) < dir_code(a.last(), y),
    ensures
        path_before(a.push(x), a.push(y)),
{
    let k = a.len() as int;
    assert(a.push(x).take(k) =~= a.push(y).take(k));
    assert(a.push(x)[k - 1] == a.last());
}

/// The cell next to `p` in direction `d`, numbered as by `dir_code`.
pub open spec fn toward(p: Pos, d: int) -> Pos {
    if d == 0 {
        Pos { x: (p.x - 1) as usize, y: p.y }
    } else if d == 1 {
        Pos { x: (p.x + 1) as usize, y: p.y }
    } else if d == 2 {
        Pos { x: p.x, y: (p.y - 1) as usize }
    } else {
        Pos { x: p.x, y: (p.y + 1) as usize }
    }
}

/// The cell next to `p` in direction `d` lies on the map and holds no obstacle.
pub open spec fn open_toward(map: &WorldMap, p: Pos, d: int) -> bool {
    &&& if d == 0 {
        p.x > 0
    } else if d == 1 {
        p.x + 1 < map.width
    } else if d == 2 {
        p.y > 0
    } else {
        p.y + 1 < map.height
    }
    &&& map.tile(toward(p, d)) != Tile::Obstacle
}

/// The open cells next to `p` in the first `k` directions, in their order.
pub open spec fn neighbors_toward(map: &WorldMap, p: Pos, k: nat) -> Seq<Pos>
    decreases k,
{
    if k == 0 {
        Seq::empty()
    } else {
        let s = neighbors_toward(map, p, (k - 1) as nat);
        if open_toward(map, p, k - 1) {
            s.push(toward(p, k - 1))
        } else {
            s
        }
    }
}

/// The passable cells next to `p`, in the order left, right, up, down.
#[verifier::opaque]
pub open spec fn neighbor_seq(map: &WorldMap, p: Pos) -> Seq<Pos> {
    neighbors_toward(map, p, 4)
}

/// The open cells in the first `k` directions are passable neighbours of
/// `p`, come in the order of their directions, and include every open one.
proof fn lemma_neighbors_toward(map: &WorldMap, p: Pos, k: nat)
    requires
        map.spec_in_bounds(p),
        k <= 4,
    ensures
        neighbors_toward(map, p, k).len() <= k,
        forall|i: int|
            0 <= i < neighbors_toward(map, p, k).len() ==> {
                let q = #[trigger] neighbors_toward(map, p, k)[i];
                &&& passable(map, q)
                &&& adjacent(p, q)
                &&& q == toward(p, dir_code(p, q))
                &&& dir_code(p, q) < k
            },
        forall|i: int, j: int|
            0 <= i < j < neighbors_toward(map, p, k).len() ==> dir_code(
                p,
                #[trigger] neighbors_toward(map, p, k)[i],
            ) < dir_code(p, #[trigger] neighbors_toward(map, p, k)[j]),
        forall|d: int|
            0 <= d < k && open_toward(map, p, d) ==> #[trigger] neighbors_toward(map, p, k).contains(
                toward(p, d),
            ),
    decreases k,
{
    if k > 0 {
        let k1 = (k - 1) as nat;
        lemma_neighbors_toward(map, p, k1);
        let s = neighbors_toward(map, p, k1);
        let d = k - 1;
        if open_toward(map, p, d) {
            let q = toward(p, d);
            assert(dir_code(p, q) == d);
            assert(neighbors_toward(map, p, k) == s.push(q));
            assert forall|e: int| 0 <= e < k && open_toward(map, p, e) implies #[trigger] neighbors_toward(
                map,
                p,
                k,
            ).contains(toward(p, e)) by {
                if e < d {
                    assert(s.contains(toward(p, e)));
                    let m = choose|m: int| 0 <= m < s.len() && s[m] == toward(p, e);
                    assert(s.push(q)[m] == toward(p, e));
                } else {
                    assert(s.push(q)[s.len() as int] == q);
                }
            }
        } else {
            assert forall|e: int| 0 <= e < k && open_toward(map, p, e) implies #[trigger] neighbors_toward(
                map,
                p,
                k,
            ).contains(toward(p, e)) by {
                assert(e < d);
            }
        }
    }
}

/// The cells of `neighbor_seq` are exactly the passable cells next to `p`.
pub proof fn lemma_neighbor_seq(map: &WorldMap, p: Pos)
    requires
        map.spec_in_bounds(p),
    ensures
        forall|i: int|
            0 <= i < neighbor_seq(map, p).len() ==> passable(map, #[trigger] neighbor_seq(map, p)[i])
                && adjacent(p, neighbor_seq(map, p)[i]),
        forall|w: Pos| passable(map, w) && adjacent(p, w) ==> #[trigger] neighbor_seq(map, p).contains(w),
        neighbor_seq(map, p).len() <= 4,
{
    reveal(neighbor_seq);
    lemma_neighbors_toward(map, p, 4);
    assert forall|w: Pos| passable(map, w) && adjacent(p, w) implies #[trigger] neighbor_seq(
        map,
        p,
    ).contains(w) by {
        let d = dir_code(p, w);
        assert(w == toward(p, d) && open_toward(map, p, d));
    }
}

/// The cells of `neighbor_seq` come in the order of their directions.
proof fn lemma_neighbor_codes(map: &WorldMap, p: Pos)
    requires
        map.spec_in_bounds(p),
    ensures
        forall|i: int, j: int|
            0 <= i < j < neighbor_seq(map, p).len() ==> dir_code(p, #[trigger] neighbor_seq(map, p)[i])
                < dir_code(p, #[trigger] neighbor_seq(map, p)[j]),
{
    reveal(neighbor_seq);
    lemma_neighbors_toward(map, p, 4);
}

/// The passable cells next to `pos`, in the order left, right, up, down.
pub fn get_neighbors(map: &WorldMap, pos: Pos) -> (r: Vec<Pos>)
    requires
        map.wf(),
        map.spec_in_bounds(pos),
    ensures
        r@ == neighbor_seq(map, pos),
{
    let mut result: Vec<Pos> = Vec::new();
    if pos.x > 0 && map.tiles[pos.y][pos.x - 1] != Tile::Obstacle {
        result.push(Pos { x: pos.x - 1, y: pos.y });
    }
    if pos.x + 1 < map.width && map.tiles[pos.y][pos.x + 1] != Tile::Obstacle {
        result.push(Pos { x: pos.x + 1, y: pos.y });
    }
    if pos.y > 0 && map.tiles[pos.y - 1][pos.x] != Tile::Obstacle {
        result.push(Pos { x: pos.x, y: pos.y - 1 });
    }
    if pos.y + 1 < map.height && map.tiles[pos.y + 1][pos.x] != Tile::Obstacle {
        result.push(Pos { x: pos.x, y: pos.y + 1 });
    }
    proof {
        reveal(neighbor_seq);
        reveal_with_fuel(neighbors_toward, 5);
    }
    assert(result@ =~= neighbor_seq(map, pos));
    result
}


/// The cells of a `w` by `h` grid.
pub open spec fn grid_cells(w: nat, h: nat) -> Set<Pos> {
    Set::new(|p: Pos| p.x < w && p.y < h)
}

spec fn row_cells(w: nat, y: nat) -> Set<Pos> {
    Set::new(|p: Pos| p.x < w && p.y == y)
}

proof fn lemma_row_cells(w: nat, y: nat)
    requires
        w <= usize::MAX,
        y <= usize::MAX,
    ensures
        row_cells(w, y).finite(),
        row_cells(w, y).len() <= w,
    decreases w,
{
    if w == 0 {
        assert(row_cells(w, y) =~= Set::<Pos>::empty());
    } else {
        lemma_row_cells((w - 1) as nat, y);
        let q = Pos { x: (w - 1) as usize, y: y as usize };
        assert(row_cells(w, y) =~= row_cells((w - 1) as nat, y).insert(q));
    }
}

/// A grid of `w` by `h` cells has at most `w * h` cells.
proof fn lemma_grid_cells(w: nat, h: nat)
    requires
        w <= usize::MAX,
        h <= usize::MAX + 1,
    ensures
        grid_cells(w, h).finite(),
        grid_cells(w, h).len() <= w * h,
    decreases h,
{
    if h == 0 {
        assert(grid_cells(w, h) =~= Set::<Pos>::empty());
    } else {
        lemma_grid_cells(w, (h - 1) as nat);
        lemma_row_cells(w, (h - 1) as nat);
        assert(grid_cells(w, h) =~= grid_cells(w, (h - 1) as nat).union(row_cells(w, (h - 1) as nat)));
        vstd::set_lib::lemma_len_union(grid_cells(w, (h - 1) as nat), row_cells(w, (h - 1) as nat));
        assert(w * (h - 1) + w == w * h) by (nonlinear_arith);
    }
}

/// The cell `p` of a grid of flags, row by row.
spec fn cell(g: Seq<Vec<bool>>, p: Pos) -> bool {
    g[p.y as int]@[p.x as int]
}

spec fn grid_shape(g: Seq<Vec<bool>>, w: usize, h: usize) -> bool {
    g.len() == h && forall|y: int| 0 <= y < h ==> #[trigger] g[y]@.len() == w
}

fn new_grid(w: usize, h: usize) -> (g: Vec<Vec<bool>>)
    ensures
        grid_shape(g@, w, h),
        forall|p: Pos| p.x < w && p.y < h ==> !#[trigger] cell(g@, p),
{
    let mut g: Vec<Vec<bool>> = Vec::new();
    let mut y: usize = 0;
    while y < h
        invariant
            y <= h,
            g@.len() == y,
            forall|j: int| 0 <= j < y ==> #[trigger] g@[j]@.len() == w,
            forall|j: int, i: int| 0 <= j < y && 0 <= i < w ==> !#[trigger] g@[j]@[i],
        decreases h - y,
    {
        let mut row: Vec<bool> = Vec::new();
        let mut x: usize = 0;
        while x < w
            invariant
                x <= w,
                row@.len() == x,
                forall|i: int| 0 <= i < x ==> !#[trigger] row@[i],
            decreases w - x,
        {
            row.push(false);
            x = x + 1;
        }
        g.push(row);
        y = y + 1;
    }
    g
}

fn mark(g: &mut Vec<Vec<bool>>, p: Pos, w: usize, h: usize)
    requires
        grid_shape(old(g)@, w, h),
        p.x < w,
        p.y < h,
    ensures
        grid_shape(final(g)@, w, h),
        forall|q: Pos| q.x < w && q.y < h ==> #[trigger] cell(final(g)@, q) == (q == p || cell(old(g)@, q)),
{
    let ghost old_g = g@;
    let mut row: Vec<bool> = Vec::new();
    let mut x: usize = 0;
    while x < w
        invariant
            grid_shape(old_g, w, h),
            g@ == old_g,
            p.y < h,
            x <= w,
            row@.len() == x,
            forall|i: int| 0 <= i < x ==> #[trigger] row@[i] == (i == p.x || old_g[p.y as int]@[i]),
        decreases w - x,
    {
        let v = x == p.x || g[p.y][x];
        row.push(v);
        x = x + 1;
    }
    g.set(p.y, row);
    assert forall|q: Pos| q.x < w && q.y < h implies #[trigger] cell(g@, q) == (q == p || cell(old_g, q)) by {
        if q.y == p.y {
            assert(cell(g@, q) == row@[q.x as int]);
        } else {
            assert(g@[q.y as int] == old_g[q.y as int]);
        }
    }
}

/// A copy of `path` with `next` added at the end.
fn extended(path: &Vec<Pos>, next: Pos) -> (r: Vec<Pos>)
    ensures
        r@ == path@.push(next),
{
    let mut r: Vec<Pos> = Vec::new();
    let mut i: usize = 0;
    while i < path.len()
        invariant
            i <= path@.len(),
            r@ == path@.subrange(0, i as int),
        decreases path@.len() - i,
    {
        r.push(path[i]);
        i = i + 1;
        assert(r@ =~= path@.subrange(0, i as int));
    }
    assert(path@.subrange(0, path@.len() as int) =~= path@);
    r.push(next);
    r
}

/// A copy of `path` without its first cell.
fn without_first(path: &Vec<Pos>) -> (r: Vec<Pos>)
    requires
        path@.len() > 0,
    ensures
        r@ == path@.drop_first(),
{
    let mut r: Vec<Pos> = Vec::new();
    let mut i: usize = 1;
    while i < path.len()
        invariant
            1 <= i <= path@.len(),
            r@ == path@.subrange(1, i as int),
        decreases path@.len() - i,
    {
        r.push(path[i]);
        i = i + 1;
        assert(r@ =~= path@.subrange(1, i as int));
    }
    assert(path@.subrange(1, path@.len() as int) =~= path@.drop_first());
    r
}

/// Where a walk `path` from `start` stands: its last cell, or `start`.
pub open spec fn walk_end(start: Pos, path: Seq<Pos>) -> Pos {
    if path.len() == 0 {
        start
    } else {
        path.last()
    }
}

proof fn lemma_walk_push(map: &WorldMap, start: Pos, path: Seq<Pos>, w: Pos)
    requires
        is_walk(map, start, path),
        passable(map, w),
        adjacent(walk_end(start, path), w),
    ensures
        is_walk(map, start, path.push(w)),
{
    let np = path.push(w);
    assert forall|i: int| 0 <= i < np.len() implies passable(map, #[trigger] np[i]) && adjacent(
        if i == 0 {
            start
        } else {
            np[i - 1]
        },
        np[i],
    ) by {
        if i < path.len() {
            assert(np[i] == path[i]);
            if i > 0 {
                assert(np[i - 1] == path[i - 1]);
            }
        }
    }
}

/// Every cell with a known distance below `bound` has its passable
/// neighbours known, at most one step further.
pub open spec fn closed_below(map: &WorldMap, dist: Map<Pos, int>, bound: int) -> bool {
    forall|p: Pos, w: Pos|
        #![trigger dist.contains_key(p), adjacent(p, w)]
        dist.contains_key(p) && dist[p] < bound && passable(map, w) && adjacent(p, w)
            ==> dist.contains_key(w) && dist[w] <= dist[p] + 1
}

/// In a distance table closed below `bound`, a walk from `start` no longer
/// than `bound` reaches its `j`-th cell within `j + 1` steps.
proof fn lemma_walk_within(
    map: &WorldMap,
    start: Pos,
    dist: Map<Pos, int>,
    walk: Seq<Pos>,
    bound: int,
    j: int,
)
    requires
        dist.contains_key(start),
        dist[start] == 0,
        closed_below(map, dist, bound),
        is_walk(map, start, walk),
        walk.len() <= bound,
        0 <= j < walk.len(),
    ensures
        dist.contains_key(walk[j]),
        dist[walk[j]] <= j + 1,
    decreases j,
{
    let prev = if j == 0 {
        start
    } else {
        walk[j - 1]
    };
    assert(passable(map, walk[j]) && adjacent(prev, walk[j]));
    if j > 0 {
        lemma_walk_within(map, start, dist, walk, bound, j - 1);
    }
    assert(dist.contains_key(prev) && dist[prev] <= j);
}

/// The queue of a search from `start`: each entry a walk from `start`, ordered
/// by length, whose end cell has its distance and queue index recorded.
spec fn queue_ok(
    map: &WorldMap,
    start: Pos,
    q: Seq<Vec<Pos>>,
    dist: Map<Pos, int>,
    idx: Map<Pos, int>,
) -> bool {
    &&& q.len() >= 1
    &&& q[0]@ == seq![start]
    &&& forall|i: int|
        0 <= i < q.len() ==> (#[trigger] q[i])@.len() >= 1 && q[i]@[0] == start && is_walk(
            map,
            start,
            q[i]@.drop_first(),
        )
    &&& forall|i: int|
        0 <= i < q.len() ==> dist.contains_key((#[trigger] q[i])@.last()) && idx.contains_key(
            q[i]@.last(),
        ) && idx[q[i]@.last()] == i
    &&& forall|p: Pos| #[trigger]
        dist.contains_key(p) ==> idx.contains_key(p) && 0 <= idx[p] < q.len() && q[idx[p]]@.last()
            == p && dist[p] == q[idx[p]]@.len() - 1 && map.spec_in_bounds(p)
    &&& forall|i: int, j: int| 0 <= i <= j < q.len() ==> (#[trigger] q[i])@.len() <= (#[trigger] q[j])@.len()
    &&& dist.dom().finite()
    &&& dist.dom().len() == q.len()
}

/// The cells with a queue index below `h` have been expanded.
spec fn expanded_below(map: &WorldMap, dist: Map<Pos, int>, idx: Map<Pos, int>, h: int) -> bool {
    forall|p: Pos, w: Pos|
        #![trigger dist.contains_key(p), adjacent(p, w)]
        dist.contains_key(p) && idx[p] < h && passable(map, w) && adjacent(p, w) ==> dist.contains_key(w)
            && dist[w] <= dist[p] + 1
}

/// Queue entries of one length come in the order of `path_before`.
spec fn layers_ordered(q: Seq<Vec<Pos>>) -> bool {
    forall|i: int, j: int|
        0 <= i < j < q.len() && (#[trigger] q[i])@.len() == (#[trigger] q[j])@.len() ==> path_before(
            q[i]@,
            q[j]@,
        )
}

/// No path from `start` of the length of a queue entry and to its end cell
/// comes before that entry.
spec fn entries_first(map: &WorldMap, start: Pos, q: Seq<Vec<Pos>>) -> bool {
    forall|i: int, wk: Seq<Pos>|
        0 <= i < q.len() && path_from(map, start, wk) && wk.len() == q[i]@.len() && wk.last() == q[i]@.last()
            ==> !#[trigger] path_before(wk, q[i]@)
}

/// Every entry after the first extends the entry `par[j]` by one cell;
/// entries before `n0` extend entries below `hd`, the later ones entry `hd`.
spec fn parents_ok(q: Seq<Vec<Pos>>, par: Seq<int>, hd: int, n0: int) -> bool {
    &&& par.len() == q.len()
    &&& forall|j: int|
        1 <= j < q.len() ==> 0 <= #[trigger] par[j] && q[j]@ == q[par[j]]@.push(q[j]@.last()) && (j < n0
            ==> par[j] < hd) && (j >= n0 ==> par[j] == hd)
}

proof fn lemma_closed_from_queue(
    map: &WorldMap,
    start: Pos,
    q: Seq<Vec<Pos>>,
    dist: Map<Pos, int>,
    idx: Map<Pos, int>,
    hd: int,
)
    requires
        queue_ok(map, start, q, dist, idx),
        expanded_below(map, dist, idx, hd),
        0 <= hd < q.len(),
    ensures
        closed_below(map, dist, q[hd]@.len() - 1),
        dist.contains_key(start),
        dist[start] == 0,
{
    let d = q[hd]@.len() - 1;
    assert(q[0]@.last() == start);
    assert forall|p: Pos, w2: Pos|
        #![trigger dist.contains_key(p), adjacent(p, w2)]
        dist.contains_key(p) && dist[p] < d && passable(map, w2) && adjacent(p, w2) implies dist.contains_key(w2)
        && dist[w2] <= dist[p] + 1 by {
        let ip = idx[p];
        if ip >= hd {
            assert(q[hd]@.len() <= q[ip]@.len());
        }
    }
}

proof fn lemma_path_prefix(map: &WorldMap, start: Pos, wk: Seq<Pos>)
    requires
        path_from(map, start, wk),
        wk.len() >= 2,
    ensures
        path_from(map, start, wk.drop_last()),
{
    let a = wk.drop_last();
    let w = wk.drop_first();
    let v = a.drop_first();
    assert forall|i: int| 0 <= i < v.len() implies passable(map, #[trigger] v[i]) && adjacent(
        if i == 0 {
            start
        } else {
            v[i - 1]
        },
        v[i],
    ) by {
        assert(v[i] == w[i]);
        assert(passable(map, w[i]));
        if i > 0 {
            assert(v[i - 1] == w[i - 1]);
        }
    }
}

/// The new entry `q[hd] + nb`, for a cell `nb` found for the first time while
/// expanding entry `hd`, comes first among the paths of its length to `nb`.
proof fn lemma_new_entry_first(
    map: &WorldMap,
    start: Pos,
    q: Seq<Vec<Pos>>,
    dist: Map<Pos, int>,
    idx: Map<Pos, int>,
    hd: int,
    nb: Pos,
)
    requires
        queue_ok(map, start, q, dist, idx),
        layers_ordered(q),
        entries_first(map, start, q),
        expanded_below(map, dist, idx, hd),
        0 <= hd < q.len(),
        !dist.contains_key(nb),
        passable(map, nb),
        adjacent(q[hd]@.last(), nb),
    ensures
        forall|wk: Seq<Pos>|
            path_from(map, start, wk) && wk.len() == q[hd]@.len() + 1 && wk.last() == nb ==> !#[trigger] path_before(
                wk,
                q[hd]@.push(nb),
            ),
{
    let c = q[hd]@;
    let d = c.len() - 1;
    lemma_closed_from_queue(map, start, q, dist, idx, hd);
    assert(c.len() >= 1 && c[0] == start);
    assert(dist.contains_key(c.last()) && idx[c.last()] == hd);
    assert forall|wk: Seq<Pos>|
        path_from(map, start, wk) && wk.len() == c.len() + 1 && wk.last() == nb implies !#[trigger] path_before(
        wk,
        c.push(nb),
    ) by {
        let wp = wk.drop_last();
        lemma_path_prefix(map, start, wk);
        lemma_path_adjacent(map, start, wk, wk.len() - 1);
        let u = wp.last();
        assert(wk[wk.len() - 2] == u);
        assert(adjacent(u, nb));
        assert(wk =~= wp.push(nb));
        // u is known, with distance at most d
        if d == 0 {
            assert(wp.len() == 1);
            assert(u == start);
        } else {
            lemma_walk_within(map, start, dist, wp.drop_first(), d, d - 1);
            assert(wp.drop_first()[d - 1] == u);
        }
        assert(dist.contains_key(u) && dist[u] <= d);
        let iu = idx[u];
        assert(q[iu]@.last() == u);
        if iu < hd {
            assert(dist.contains_key(nb));
        }
        assert(iu >= hd);
        assert(q[hd]@.len() <= q[iu]@.len());
        assert(dist[u] == d);
        assert(q[iu]@.len() == c.len());
        if path_before(wp, q[iu]@) {
            assert(!path_before(wp, q[iu]@));
        }
        // so q[iu] is wp, or comes before it
        if wp != q[iu]@ {
            lemma_before_total(map, start, wp, q[iu]@);
        }
        if iu == hd {
            if wp == c {
                if path_before(wk, c.push(nb)) {
                    lemma_before_asymmetric(wk, c.push(nb));
                }
            } else {
                lemma_before_extend(c, wp, nb, nb);
                lemma_before_asymmetric(c.push(nb), wk);
            }
        } else {
            assert(path_before(c, q[iu]@));
            if wp != q[iu]@ {
                lemma_before_transitive(c, q[iu]@, wp);
            }
            lemma_before_extend(c, wp, nb, nb);
            lemma_before_asymmetric(c.push(nb), wk);
        }
    }
}

/// A shortest path from `start` to `goal` moving left, right, up and down
/// over cells that are not obstacles, without `start` itself; empty when
/// `start == goal` or when `goal` cannot be reached.
pub fn bfs(map: &WorldMap, start: Pos, goal: Pos) -> (r: Vec<Pos>)
    requires
        map.wf(),
        map.spec_in_bounds(start) || start == goal,
    ensures
        search_result(map, start, goal, r@),
{
    if start == goal {
        return Vec::new();
    }
    let w = map.width;
    let h = map.height;
    let mut visited = new_grid(w, h);
    mark(&mut visited, start, w, h);
    let mut first: Vec<Pos> = Vec::new();
    first.push(start);
    let mut queue: Vec<Vec<Pos>> = Vec::new();
    queue.push(first);
    let ghost mut dist: Map<Pos, int> = Map::empty().insert(start, 0);
    let ghost mut idx: Map<Pos, int> = Map::empty().insert(start, 0);
    let ghost mut par: Seq<int> = seq![0int];
    proof {
        assert forall|i: int, wk: Seq<Pos>|
            0 <= i < queue@.len() && path_from(map, start, wk) && wk.len() == queue@[i]@.len() && wk.last()
                == queue@[i]@.last() implies !#[trigger] path_before(wk, queue@[i]@) by {
            assert(wk =~= queue@[0]@);
            if path_before(wk, queue@[i]@) {
                lemma_before_asymmetric(wk, queue@[i]@);
            }
        }
        lemma_grid_cells(w as nat, h as nat);
        assert(dist.dom() =~= set![start]);
        assert(queue@[0]@ =~= seq![start]);
        assert(queue@[0]@.drop_first() =~= Seq::<Pos>::empty());
        assert(dist.dom().subset_of(grid_cells(w as nat, h as nat)));
        vstd::set_lib::lemma_len_subset(dist.dom(), grid_cells(w as nat, h as nat));
    }
    let mut head: usize = 0;
    while head < queue.len()
        invariant
            map.wf(),
            w == map.width,
            h == map.height,
            map.spec_in_bounds(start),
            start != goal,
            grid_shape(visited@, w, h),
            forall|p: Pos| map.spec_in_bounds(p) ==> (#[trigger] cell(visited@, p) <==> dist.contains_key(p)),
            queue_ok(map, start, queue@, dist, idx),
            head <= queue@.len(),
            head < queue@.len() ==> forall|i: int|
                0 <= i < queue@.len() ==> (#[trigger] queue@[i])@.len() <= queue@[head as int]@.len() + 1,
            expanded_below(map, dist, idx, head as int),
            forall|i: int| 0 <= i < head ==> (#[trigger] queue@[i])@.last() != goal,
            grid_cells(w as nat, h as nat).finite(),
            grid_cells(w as nat, h as nat).len() <= w * h,
            queue@.len() <= w * h,
            layers_ordered(queue@),
            entries_first(map, start, queue@),
            parents_ok(queue@, par, head as int, queue@.len() as int),
        decreases w * h - head,
    {
        let hd = head;
        let cur_len = queue[hd].len();
        let current = queue[hd][cur_len - 1];
        head = head + 1;
        assert(current == queue@[hd as int]@.last());
        if current == goal {
            let r = without_first(&queue[hd]);
            proof {
                let d = queue@[hd as int]@.len() - 1;
                assert(queue@[hd as int]@[0] == start);
                assert(d >= 1);
                assert(dist.contains_key(goal) && idx[goal] == hd);
                assert(dist[goal] == d);
                assert(dist.contains_key(start)) by {
                    assert(queue@[0]@.last() == start);
                }
                assert(dist[start] == 0) by {
                    assert(queue@[0]@.last() == start);
                }
                assert(closed_below(map, dist, d)) by {
                    assert forall|p: Pos, w2: Pos|
                        #![trigger dist.contains_key(p), adjacent(p, w2)]
                        dist.contains_key(p) && dist[p] < d && passable(map, w2) && adjacent(p, w2)
                        implies dist.contains_key(w2) && dist[w2] <= dist[p] + 1 by {
                        let ip = idx[p];
                        if ip >= hd {
                            assert(queue@[hd as int]@.len() <= queue@[ip]@.len());
                        }
                    }
                }
                assert(walk_to(map, start, goal, r@)) by {
                    assert(r@.last() == queue@[hd as int]@.last());
                }
                assert forall|wk: Seq<Pos>| walk_to(map, start, goal, wk) implies r@.len() <= wk.len() by {
                    if wk.len() < r@.len() {
                        lemma_walk_within(map, start, dist, wk, d, wk.len() - 1);
                        assert(wk[wk.len() - 1] == goal);
                    }
                }
                let c = queue@[hd as int]@;
                assert(seq![start] + r@ =~= c);
                assert forall|wk: Seq<Pos>|
                    walk_to(map, start, goal, wk) && wk.len() == r@.len() implies !#[trigger] walk_before(
                    start,
                    wk,
                    r@,
                ) by {
                    let full = seq![start] + wk;
                    assert(full.drop_first() =~= wk);
                    assert(full.last() == wk.last());
                    assert(path_from(map, start, full));
                    assert(!path_before(full, queue@[hd as int]@));
                }
            }
            return r;
        }
        let neighbors = get_neighbors(map, current);
        proof {
            lemma_neighbor_seq(map, current);
            assert(dist.contains_key(current) && idx[current] == hd);
        }
        let ghost dcur = dist[current];
        let ghost n0 = queue@.len() as int;
        let ghost mut kid: Seq<int> = Seq::new(queue@.len(), |i: int| 0int);
        proof {
            lemma_neighbor_codes(map, current);
        }
        let mut k: usize = 0;
        while k < neighbors.len()
            invariant
                map.wf(),
                w == map.width,
                h == map.height,
                map.spec_in_bounds(start),
                map.spec_in_bounds(current),
                start != goal,
                current != goal,
                grid_shape(visited@, w, h),
                forall|p: Pos| map.spec_in_bounds(p) ==> (#[trigger] cell(visited@, p) <==> dist.contains_key(p)),
                queue_ok(map, start, queue@, dist, idx),
                head == hd + 1,
                hd < queue@.len(),
                current == queue@[hd as int]@.last(),
                dist.contains_key(current),
                dist[current] == dcur,
                idx[current] == hd,
                dcur == queue@[hd as int]@.len() - 1,
                neighbors@ == neighbor_seq(map, current),
                forall|i: int| 0 <= i < neighbors@.len() ==> passable(map, #[trigger] neighbors@[i])
                    && adjacent(current, neighbors@[i]),
                forall|i: int|
                    0 <= i < queue@.len() ==> (#[trigger] queue@[i])@.len() <= queue@[hd as int]@.len() + 1,
                expanded_below(map, dist, idx, hd as int),
                forall|j: int| 0 <= j < k ==> dist.contains_key(#[trigger] neighbors@[j]) && dist[neighbors@[j]] <= dcur + 1,
                k <= neighbors@.len(),
                forall|i: int| 0 <= i < hd + 1 ==> (#[trigger] queue@[i])@.last() != goal,
                grid_cells(w as nat, h as nat).finite(),
                grid_cells(w as nat, h as nat).len() <= w * h,
                queue@.len() <= w * h,
                layers_ordered(queue@),
                entries_first(map, start, queue@),
                hd < n0 <= queue@.len(),
                parents_ok(queue@, par, hd as int, n0),
                kid.len() == queue@.len(),
                forall|i: int|
                    n0 <= i < queue@.len() ==> 0 <= #[trigger] kid[i] < k && queue@[i]@.last()
                        == neighbors@[kid[i]],
                forall|i: int, j: int|
                    0 <= i < j < neighbors@.len() ==> dir_code(current, #[trigger] neighbors@[i]) < dir_code(
                        current,
                        #[trigger] neighbors@[j],
                    ),
            decreases neighbors@.len() - k,
        {
            let nb = neighbors[k];
            assert(passable(map, nb) && adjacent(current, nb));
            if !visited[nb.y][nb.x] {
                assert(!cell(visited@, nb));
                mark(&mut visited, nb, w, h);
                let np = extended(&queue[hd], nb);
                let ghost old_q = queue@;
                let ghost old_dist = dist;
                let ghost old_idx = idx;
                let ghost n = queue@.len();
                proof {
                    let cp = old_q[hd as int]@;
                    assert(cp.push(nb).drop_first() =~= cp.drop_first().push(nb));
                    assert(walk_end(start, cp.drop_first()) == current) by {
                        if cp.len() > 1 {
                            assert(cp.drop_first().last() == cp.last());
                        }
                    }
                    lemma_walk_push(map, start, cp.drop_first(), nb);
                    lemma_new_entry_first(map, start, old_q, old_dist, old_idx, hd as int, nb);
                }
                queue.push(np);
                proof {
                    par = par.push(hd as int);
                    kid = kid.push(k as int);
                    dist = dist.insert(nb, dcur + 1);
                    idx = idx.insert(nb, n as int);
                    assert(queue@[n as int]@ == old_q[hd as int]@.push(nb));
                    assert forall|i: int| 0 <= i < n implies #[trigger] queue@[i] == old_q[i] by {}
                    assert(dist.dom() =~= old_dist.dom().insert(nb));
                    assert(!old_dist.dom().contains(nb));
                    assert(dist.dom().subset_of(grid_cells(w as nat, h as nat)));
                    vstd::set_lib::lemma_len_subset(dist.dom(), grid_cells(w as nat, h as nat));
                    assert forall|i: int|
                        0 <= i < queue@.len() implies (#[trigger] queue@[i])@.len() >= 1 && queue@[i]@[0]
                        == start && is_walk(map, start, queue@[i]@.drop_first()) by {
                        if i < n {
                            assert(queue@[i] == old_q[i]);
                        }
                    }
                    assert forall|i: int|
                        0 <= i < queue@.len() implies dist.contains_key((#[trigger] queue@[i])@.last())
                        && idx.contains_key(queue@[i]@.last()) && idx[queue@[i]@.last()] == i by {
                        if i < n {
                            assert(queue@[i] == old_q[i]);
                            assert(old_q[i]@.last() != nb);
                        }
                    }
                    assert forall|p: Pos| #[trigger] dist.contains_key(p) implies idx.contains_key(p) && 0
                        <= idx[p] < queue@.len() && queue@[idx[p]]@.last() == p && dist[p]
                        == queue@[idx[p]]@.len() - 1 && map.spec_in_bounds(p) by {
                        if p != nb {
                            assert(old_dist.contains_key(p));
                            assert(queue@[old_idx[p]] == old_q[old_idx[p]]);
                        }
                    }
                    assert forall|i: int, j: int| 0 <= i <= j < queue@.len() implies (#[trigger] queue@[i])@.len()
                        <= (#[trigger] queue@[j])@.len() by {
                        if j < n {
                            assert(queue@[i] == old_q[i]);
                            assert(queue@[j] == old_q[j]);
                        } else if i < n {
                            assert(queue@[i] == old_q[i]);
                        }
                    }
                    assert(queue_ok(map, start, queue@, dist, idx));
                    assert forall|p: Pos, w2: Pos|
                        #![trigger dist.contains_key(p), adjacent(p, w2)]
                        dist.contains_key(p) && idx[p] < hd && passable(map, w2) && adjacent(p, w2)
                        implies dist.contains_key(w2) && dist[w2] <= dist[p] + 1 by {
                        if p != nb {
                            assert(old_dist.contains_key(p));
                            assert(old_dist.contains_key(w2) && old_dist[w2] <= old_dist[p] + 1);
                        }
                    }
                    assert forall|i: int|
                        0 <= i < queue@.len() implies (#[trigger] queue@[i])@.len() <= queue@[hd as int]@.len() + 1 by {
                        if i < n {
                            assert(queue@[i] == old_q[i]);
                        }
                    }
                    assert forall|j: int| 0 <= j <= k implies dist.contains_key(#[trigger] neighbors@[j])
                        && dist[neighbors@[j]] <= dcur + 1 by {
                        if j < k {
                            assert(old_dist.contains_key(neighbors@[j]));
                        }
                    }
                    assert forall|i: int| 0 <= i < hd + 1 implies (#[trigger] queue@[i])@.last() != goal by {
                        assert(queue@[i] == old_q[i]);
                    }
                    let cp = old_q[hd as int]@;
                    assert forall|i: int, j: int|
                        0 <= i < j < queue@.len() && (#[trigger] queue@[i])@.len() == (#[trigger] queue@[j])@.len()
                        implies path_before(queue@[i]@, queue@[j]@) by {
                        assert(queue@[i] == old_q[i]);
                        if j < n {
                            assert(queue@[j] == old_q[j]);
                        } else {
                            assert(i >= 1);
                            let pi = par[i];
                            assert(old_q[i]@ == old_q[pi]@.push(old_q[i]@.last()));
                            if i < n0 {
                                assert(old_q[pi]@.len() == cp.len());
                                assert(path_before(old_q[pi]@, cp));
                                lemma_before_extend(old_q[pi]@, cp, old_q[i]@.last(), nb);
                            } else {
                                assert(kid[i] < k);
                                assert(old_q[i]@.last() == neighbors@[kid[i]]);
                                assert(cp.last() == current);
                                lemma_before_sibling(cp, old_q[i]@.last(), nb);
                            }
                        }
                    }
                    assert forall|i: int, wk: Seq<Pos>|
                        0 <= i < queue@.len() && path_from(map, start, wk) && wk.len() == queue@[i]@.len()
                            && wk.last() == queue@[i]@.last() implies !#[trigger] path_before(wk, queue@[i]@) by {
                        if i < n {
                            assert(queue@[i] == old_q[i]);
                        }
                    }
                    assert forall|j: int|
                        1 <= j < queue@.len() implies 0 <= #[trigger] par[j] && queue@[j]@ == queue@[par[j]]@.push(
                        queue@[j]@.last(),
                    ) && (j < n0 ==> par[j] < hd) && (j >= n0 ==> par[j] == hd) by {
                        if j < n {
                            assert(queue@[j] == old_q[j]);
                            assert(queue@[par[j]] == old_q[par[j]]);
                        } else {
                            assert(queue@[hd as int] == old_q[hd as int]);
                        }
                    }
                    assert forall|i: int|
                        n0 <= i < queue@.len() implies 0 <= #[trigger] kid[i] < k + 1 && queue@[i]@.last()
                        == neighbors@[kid[i]] by {
                        if i < n {
                            assert(queue@[i] == old_q[i]);
                        }
                    }
                }
            } else {
                proof {
                    assert(cell(visited@, nb));
                    let inb = idx[nb];
                    assert(queue@[inb]@.len() <= queue@[hd as int]@.len() + 1);
                }
            }
            k = k + 1;
        }
        proof {
            assert forall|p: Pos, w2: Pos|
                #![trigger dist.contains_key(p), adjacent(p, w2)]
                dist.contains_key(p) && idx[p] < hd + 1 && passable(map, w2) && adjacent(p, w2)
                implies dist.contains_key(w2) && dist[w2] <= dist[p] + 1 by {
                if idx[p] == hd {
                    assert(p == current);
                    assert(neighbor_seq(map, current).contains(w2));
                    let j = choose|j: int| 0 <= j < neighbors@.len() && neighbors@[j] == w2;
                    assert(dist.contains_key(neighbors@[j]));
                }
            }
            if hd + 1 < queue@.len() {
                assert(queue@[hd as int]@.len() <= queue@[hd + 1]@.len());
            }
            assert forall|j: int|
                1 <= j < queue@.len() implies 0 <= #[trigger] par[j] && queue@[j]@ == queue@[par[j]]@.push(
                queue@[j]@.last(),
            ) && (j < queue@.len() ==> par[j] < hd + 1) && (j >= queue@.len() ==> par[j] == hd + 1) by {}
        }
    }
    proof {
        assert(dist.contains_key(start) && dist[start] == 0) by {
            assert(queue@[0]@.last() == start);
        }
        assert forall|wk: Seq<Pos>| !walk_to(map, start, goal, wk) by {
            if walk_to(map, start, goal, wk) {
                assert(closed_below(map, dist, wk.len() + 1int));
                lemma_walk_within(map, start, dist, wk, wk.len() + 1int, wk.len() - 1);
                assert(wk[wk.len() - 1] == goal);
                let ig = idx[goal];
                assert(queue@[ig]@.last() == goal);
            }
        }
    }
    Vec::new()
}

} // verus!
