//! Best-first (A*) search for walks over the grid.
use crate::geo::abs;
use crate::geo::adjacent;
use crate::geo::manhattan_dist;
use crate::geo::pt;
use crate::geo::Dir;
use crate::geo::Point;
use crate::geo::Rect;
use vstd::prelude::*;
use vstd::set_lib::lemma_int_range;
use vstd::set_lib::lemma_len_subset;

verus! {

/// The predicate may report `p` as walkable.
pub open spec fn walkable<W: Fn(Point) -> bool>(w: &W, p: Point) -> bool {
    w.ensures((p,), true)
}

/// The predicate may report `p` as not walkable.
pub open spec fn refused<W: Fn(Point) -> bool>(w: &W, p: Point) -> bool {
    w.ensures((p,), false)
}

/// The predicate can be asked about every point.
pub open spec fn total_pred<W: Fn(Point) -> bool>(w: &W) -> bool {
    forall|p: Point| #[trigger] w.requires((p,))
}

/// Every walkable point lies in `bounds`.
pub open spec fn confined<W: Fn(Point) -> bool>(w: &W, bounds: Rect) -> bool {
    forall|p: Point| #[trigger] walkable(w, p) ==> bounds.has(p)
}

/// `path` is a walk from `start` to `goal`, stored goal first: each point is
/// one king's move from the next, and each but the last (`start`) is
/// walkable.
pub open spec fn is_walk<W: Fn(Point) -> bool>(
    w: &W,
    path: Seq<Point>,
    start: Point,
    goal: Point,
) -> bool {
    &&& path.len() >= 1
    &&& path[0] == goal
    &&& path[path.len() - 1] == start
    &&& forall|i: int|
        0 <= i < path.len() - 1 ==> adjacent(#[trigger] path[i], path[i + 1]) && walkable(
            w,
            path[i],
        )
}

/// `path` is a walk from `start` to `goal` that visits no point twice.
pub open spec fn is_path<W: Fn(Point) -> bool>(
    w: &W,
    path: Seq<Point>,
    start: Point,
    goal: Point,
) -> bool {
    is_walk(w, path, start, goal) && path.no_duplicates()
}

/// `path` leads from `start` to `goal`, stored goal first, by king's moves
/// through points that the predicate never refuses (`start` aside).
pub open spec fn is_open_walk<W: Fn(Point) -> bool>(
    w: &W,
    path: Seq<Point>,
    start: Point,
    goal: Point,
) -> bool {
    &&& path.len() >= 1
    &&& path[0] == goal
    &&& path[path.len() - 1] == start
    &&& forall|i: int|
        0 <= i < path.len() - 1 ==> adjacent(#[trigger] path[i], path[i + 1]) && !refused(
            w,
            path[i],
        )
}

/// Some walk through points that the predicate never refuses leads from
/// `start` to `goal`.
pub open spec fn open_reachable<W: Fn(Point) -> bool>(w: &W, start: Point, goal: Point) -> bool {
    exists|path: Seq<Point>| is_open_walk(w, path, start, goal)
}

/// The point one step from `p` in the `k`-th direction of the search order.
pub open spec fn step(p: Point, k: int) -> Point {
    pt(p.x + Dir::all_spec()[k].offset().x, p.y + Dir::all_spec()[k].offset().y)
}

/// Every point one king's move from `p` is one step from `p` in one of the
/// eight directions.
proof fn lemma_adjacent_step(p: Point, q: Point) -> (k: int)
    requires
        adjacent(p, q),
        p.bounded(),
    ensures
        0 <= k < 8,
        q == step(p, k),
{
    let dx = q.x - p.x;
    let dy = q.y - p.y;
    let k: int = if dx == 0 && dy == -1 {
        0
    } else if dx == 0 && dy == 1 {
        1
    } else if dx == 1 && dy == 0 {
        2
    } else if dx == -1 && dy == 0 {
        3
    } else if dx == 1 && dy == -1 {
        4
    } else if dx == -1 && dy == -1 {
        5
    } else if dx == -1 && dy == 1 {
        6
    } else {
        7
    };
    k
}

/// The points of the first `n` rows of `r`.
spec fn rows(r: Rect, n: int) -> Set<Point> {
    Set::new(|p: Point| r.0.x <= p.x < r.1.x && r.0.y <= p.y < r.0.y + n)
}

proof fn lemma_rows_finite(r: Rect, n: int)
    requires
        r.wf(),
        0 <= n <= r.height_spec(),
    ensures
        rows(r, n).finite(),
    decreases n,
{
    if n == 0 {
        assert(rows(r, 0) =~= Set::empty());
    } else {
        lemma_rows_finite(r, n - 1);
        let y = r.0.y + n - 1;
        let f = |x: int| pt(x, y);
        lemma_int_range(r.0.x as int, r.1.x as int);
        let xs = Set::new(|x: int| r.0.x <= x < r.1.x);
        assert(xs =~= vstd::set_lib::set_int_range(r.0.x as int, r.1.x as int));
        xs.lemma_map_finite(f);
        assert forall|p: Point| #[trigger] rows(r, n).contains(p) implies rows(r, n - 1).union(
            xs.map(f),
        ).contains(p) by {
            if p.y == y {
                assert(xs.contains(p.x as int));
                assert(f(p.x as int) == p);
            }
        }
        assert(rows(r, n) =~= rows(r, n - 1).union(xs.map(f)).filter(|p: Point| rows(r, n).contains(p)));
        vstd::set_lib::lemma_set_subset_finite(rows(r, n - 1).union(xs.map(f)), rows(r, n));
    }
}

/// The points of `bounds`, and `start`.
spec fn search_space(bounds: Rect, start: Point) -> Set<Point> {
    rows(bounds, bounds.height_spec()).insert(start)
}

/// Looks `p` up among the discovered points.
fn find_node(nodes: &Vec<Point>, p: Point) -> (r: Option<usize>)
    ensures
        r is Some ==> r->0 < nodes@.len() && nodes@[r->0 as int] == p,
        r is None ==> !nodes@.contains(p),
{
    let mut i: usize = 0;
    while i < nodes.len()
        invariant
            i <= nodes@.len(),
            forall|j: int| 0 <= j < i ==> nodes@[j] != p,
        decreases nodes@.len() - i,
    {
        if nodes[i] == p {
            return Some(i);
        }
        i = i + 1;
    }
    None
}

/// Manhattan distance, saturated to the range of `u64`.
pub fn manhattan_cost(a: Point, b: Point) -> (r: u64)
    ensures
        r == manhattan_cost_spec(a, b),
{
    let dx: i128 = a.x as i128 - b.x as i128;
    let dy: i128 = a.y as i128 - b.y as i128;
    let ax: i128 = if dx < 0 {
        -dx
    } else {
        dx
    };
    let ay: i128 = if dy < 0 {
        -dy
    } else {
        dy
    };
    let d = ax + ay;
    if d > u64::MAX as i128 {
        u64::MAX
    } else {
        d as u64
    }
}


proof fn lemma_push_contains(s: Seq<Point>, x: Point)
    ensures
        forall|q: Point| s.contains(q) ==> #[trigger] s.push(x).contains(q),
        s.push(x).contains(x),
{
    assert forall|q: Point| s.contains(q) implies #[trigger] s.push(x).contains(q) by {
        let j = choose|j: int| 0 <= j < s.len() && s[j] == q;
        assert(s.push(x)[j] == q);
    }
    assert(s.push(x)[s.len() as int] == x);
}

/// Every step out of a closed node that the predicate does not refuse leads
/// to a discovered node.
spec fn closed_complete<W: Fn(Point) -> bool>(w: &W, nodes: Seq<Point>, closed: Seq<bool>) -> bool {
    forall|i: int, k: int|
        0 <= i < nodes.len() && i < closed.len() && closed[i] && 0 <= k < 8 && !refused(
            w,
            #[trigger] step(nodes[i], k),
        ) ==> nodes.contains(step(nodes[i], k))
}

proof fn lemma_walk_discovered<W: Fn(Point) -> bool>(
    w: &W,
    nodes: Seq<Point>,
    closed: Seq<bool>,
    path: Seq<Point>,
    start: Point,
    goal: Point,
    m: int,
)
    requires
        is_open_walk(w, path, start, goal),
        0 <= m < path.len(),
        nodes.len() == closed.len(),
        nodes.len() >= 1,
        nodes[0] == start,
        forall|i: int| 0 <= i < closed.len() ==> #[trigger] closed[i],
        forall|i: int| 0 <= i < nodes.len() ==> (#[trigger] nodes[i]).bounded(),
        closed_complete(w, nodes, closed),
    ensures
        nodes.contains(path[m]),
    decreases path.len() - m,
{
    if m == path.len() - 1 {
        assert(nodes[0] == path[m]);
    } else {
        lemma_walk_discovered(w, nodes, closed, path, start, goal, m + 1);
        let j = choose|j: int| 0 <= j < nodes.len() && nodes[j] == path[m + 1];
        assert(adjacent(path[m], path[m + 1]) && !refused(w, path[m]));
        let k = lemma_adjacent_step(nodes[j], path[m]);
        assert(closed[j]);
        assert(!refused(w, step(nodes[j], k)));
    }
}

/// A goal other than the start whose every neighbour is neither walkable
/// nor the start cannot be reached: no walk leads there, so `a_star`, which
/// returns only walks, returns `None`.
pub proof fn lemma_enclosed_goal_unreachable<W: Fn(Point) -> bool>(
    w: &W,
    start: Point,
    goal: Point,
)
    requires
        start != goal,
        forall|q: Point| #[trigger] adjacent(goal, q) ==> !walkable(w, q) && q != start,
    ensures
        forall|path: Seq<Point>| !is_walk(w, path, start, goal),
{
    assert forall|path: Seq<Point>| !is_walk(w, path, start, goal) by {
        if is_walk(w, path, start, goal) {
            assert(path.len() >= 2);
            assert(adjacent(path[0], path[1]));
            if path.len() == 2 {
                assert(path[1] == start);
            } else {
                assert(walkable(w, path[1]));
            }
        }
    }
}

/// Searches for a walk from `start` to `goal` with A*.
///
/// `can_walk` tells which points may be entered (`start` itself is never
/// asked); every walkable point lies in `bounds`. Each step is one of the
/// eight king's moves, expanded in the order of `Dir::all`; `distance`
/// prices a step and `heuristic` estimates the cost left from a point.
/// The discovered point with the least estimate is expanded next (the most
/// recently discovered on ties), and each point is expanded at most once.
///
/// Returns the walk goal first and `start` last, visiting no point twice.
/// Returns `None` only when no walk leads from `start` to `goal` through
/// points that `can_walk` does not refuse.
pub fn a_star<W, D, H>(
    start: Point,
    goal: Point,
    bounds: Rect,
    can_walk: &W,
    distance: &D,
    heuristic: &H,
) -> (r: Option<Vec<Point>>) where W: Fn(Point) -> bool, D: Fn(Point, Point) -> u64, H: Fn(Point) -> u64
    requires
        bounds.wf(),
        start.bounded(),
        total_pred(can_walk),
        confined(can_walk, bounds),
        forall|a: Point, b: Point| #[trigger] distance.requires((a, b)),
        forall|p: Point| #[trigger] heuristic.requires((p,)),
    ensures
        r is Some ==> is_path(can_walk, r->0@, start, goal),
        r is None ==> !open_reachable(can_walk, start, goal),
{
    let ghost space = search_space(bounds, start);
    proof {
        lemma_rows_finite(bounds, bounds.height_spec());
    }
    let mut nodes: Vec<Point> = vec![start];
    let mut g: Vec<u64> = vec![0];
    let h0 = heuristic(start);
    let mut f: Vec<u64> = vec![h0];
    let mut parent: Vec<usize> = vec![0];
    let mut closed: Vec<bool> = vec![false];
    let ghost mut order: Seq<int> = seq![0];
    let ghost mut closed_set: Set<Point> = Set::empty();
    let ghost mut t: int = 0;
    loop
        invariant
            bounds.wf(),
            start.bounded(),
            total_pred(can_walk),
            confined(can_walk, bounds),
            forall|a: Point, b: Point| #[trigger] distance.requires((a, b)),
            forall|p: Point| #[trigger] heuristic.requires((p,)),
            space == search_space(bounds, start),
            space.finite(),
            nodes@.len() >= 1,
            g@.len() == nodes@.len(),
            f@.len() == nodes@.len(),
            parent@.len() == nodes@.len(),
            closed@.len() == nodes@.len(),
            order.len() == nodes@.len(),
            nodes@[0] == start,
            nodes@.no_duplicates(),
            forall|i: int|
                0 <= i < nodes@.len() ==> space.contains(#[trigger] nodes@[i])
                    && nodes@[i].bounded(),
            forall|i: int| 0 < i < nodes@.len() ==> walkable(can_walk, #[trigger] nodes@[i]),
            forall|i: int|
                0 < i < nodes@.len() ==> (#[trigger] parent@[i] as int) < nodes@.len()
                    && closed@[parent@[i] as int] && adjacent(nodes@[i], nodes@[parent@[i] as int])
                    && (closed@[i] ==> order[parent@[i] as int] < order[i]),
            forall|i: int| 0 <= i < nodes@.len() && #[trigger] closed@[i] ==> 0 <= order[i] < t,
            forall|i: int| 0 <= i < nodes@.len() && #[trigger] closed@[i] ==> nodes@[i] != goal,
            forall|i: int|
                0 <= i < nodes@.len() ==> (closed@[i] <==> closed_set.contains(#[trigger] nodes@[i])),
            forall|q: Point| closed_set.contains(q) ==> nodes@.contains(q),
            closed_set.subset_of(space),
            closed_set.finite(),
            closed_complete(can_walk, nodes@, closed@),
            t >= 0,
        decreases space.len() - closed_set.len(),
    {
        // The open node with the least estimate, the latest on ties.
        let mut best: Option<usize> = None;
        let mut i: usize = 0;
        while i < nodes.len()
            invariant
                i <= nodes@.len(),
                closed@.len() == nodes@.len(),
                f@.len() == nodes@.len(),
                best is Some ==> best->0 < nodes@.len() && !closed@[best->0 as int],
                best is None ==> forall|j: int| 0 <= j < i ==> closed@[j],
            decreases nodes@.len() - i,
        {
            if !closed[i] {
                best = match best {
                    None => Some(i),
                    Some(b) => if f[i] <= f[b] {
                        Some(i)
                    } else {
                        Some(b)
                    },
                };
            }
            i = i + 1;
        }
        let cur = match best {
            None => {
                proof {
                    if open_reachable(can_walk, start, goal) {
                        let path = choose|path: Seq<Point>| is_open_walk(can_walk, path, start, goal);
                        lemma_walk_discovered(can_walk, nodes@, closed@, path, start, goal, 0);
                        let j = choose|j: int| 0 <= j < nodes@.len() && nodes@[j] == path[0];
                        assert(closed@[j]);
                    }
                }
                return None;
            },
            Some(b) => b,
        };
        let current = nodes[cur];
        if current == goal {
            return Some(reconstruct(&nodes, &parent, &closed, cur, Ghost(order), Ghost(t), can_walk, Ghost(start)));
        }
        let ghost closed_before = closed@;
        let ghost order_before = order;
        closed.set(cur, true);
        proof {
            order = order.update(cur as int, t);
            t = t + 1;
            assert forall|i: int| 0 <= i < nodes@.len() && #[trigger] closed@[i] implies 0 <= order[i]
                < t by {
                if i != cur {
                    assert(closed_before[i]);
                    assert(order[i] == order_before[i]);
                }
            }
            closed_set = closed_set.insert(current);
            lemma_len_subset(closed_set, space);
        }
        let dirs = Dir::all();
        let mut k: usize = 0;
        while k < 8
            invariant
                bounds.wf(),
                start.bounded(),
                total_pred(can_walk),
                confined(can_walk, bounds),
                forall|a: Point, b: Point| #[trigger] distance.requires((a, b)),
                forall|p: Point| #[trigger] heuristic.requires((p,)),
                space == search_space(bounds, start),
                dirs@ == Dir::all_spec(),
                k <= 8,
                cur < nodes@.len(),
                nodes@[cur as int] == current,
                closed@[cur as int],
                current.bounded(),
                nodes@.len() >= 1,
                g@.len() == nodes@.len(),
                f@.len() == nodes@.len(),
                parent@.len() == nodes@.len(),
                closed@.len() == nodes@.len(),
                order.len() == nodes@.len(),
                nodes@[0] == start,
                nodes@.no_duplicates(),
                forall|i: int|
                    0 <= i < nodes@.len() ==> space.contains(#[trigger] nodes@[i])
                        && nodes@[i].bounded(),
                forall|i: int| 0 < i < nodes@.len() ==> walkable(can_walk, #[trigger] nodes@[i]),
                forall|i: int|
                    0 < i < nodes@.len() ==> (#[trigger] parent@[i] as int) < nodes@.len()
                        && closed@[parent@[i] as int] && adjacent(
                        nodes@[i],
                        nodes@[parent@[i] as int],
                    ) && (closed@[i] ==> order[parent@[i] as int] < order[i]),
                forall|i: int| 0 <= i < nodes@.len() && #[trigger] closed@[i] ==> 0 <= order[i] < t,
                forall|i: int| 0 <= i < nodes@.len() && #[trigger] closed@[i] ==> nodes@[i] != goal,
                forall|i: int|
                    0 <= i < nodes@.len() ==> (closed@[i] <==> closed_set.contains(
                        #[trigger] nodes@[i],
                    )),
                forall|q: Point| closed_set.contains(q) ==> nodes@.contains(q),
                closed_set.subset_of(space),
                closed_set.finite(),
                t >= 0,
                forall|i: int, kk: int|
                    0 <= i < nodes@.len() && closed@[i] && i != cur && 0 <= kk < 8 && !refused(
                        can_walk,
                        #[trigger] step(nodes@[i], kk),
                    ) ==> nodes@.contains(step(nodes@[i], kk)),
                forall|kk: int|
                    0 <= kk < k && !refused(can_walk, #[trigger] step(current, kk)) ==> nodes@.contains(
                        step(current, kk),
                    ),
            decreases 8 - k,
        {
            let neighbor = current.add(dirs[k].to_point());
            assert(neighbor == step(current, k as int));
            let ok = can_walk(neighbor);
            if ok {
                let cost = g[cur].saturating_add(distance(current, neighbor));
                match find_node(&nodes, neighbor) {
                    None => {
                        let h = heuristic(neighbor);
                        let ghost old_nodes = nodes@;
                        proof {
                            lemma_push_contains(old_nodes, neighbor);
                            assert(!closed_set.contains(neighbor));
                            assert(can_walk.ensures((neighbor,), true));
                            assert(walkable(can_walk, neighbor));
                            assert(bounds.has(neighbor));
                            assert(rows(bounds, bounds.height_spec()).contains(neighbor));
                            assert(space.contains(neighbor));
                        }
                        nodes.push(neighbor);
                        g.push(cost);
                        f.push(cost.saturating_add(h));
                        parent.push(cur);
                        closed.push(false);
                        proof {
                            order = order.push(0);
                            assert forall|a: int, b: int|
                                0 <= a < b < nodes@.len() implies nodes@[a] != nodes@[b] by {
                                if b == nodes@.len() - 1 {
                                    assert(old_nodes.contains(nodes@[a]));
                                }
                            }
                        }
                    },
                    Some(j) => {
                        if !closed[j] && cost < g[j] {
                            let h = heuristic(neighbor);
                            g.set(j, cost);
                            f.set(j, cost.saturating_add(h));
                            parent.set(j, cur);
                        }
                    },
                }
            } else {
                proof {
                    assert(refused(can_walk, neighbor));
                }
            }
            k = k + 1;
        }
    }
}

/// Reads the walk back from the node `last` to the start through the
/// recorded predecessors.
fn reconstruct<W: Fn(Point) -> bool>(
    nodes: &Vec<Point>,
    parent: &Vec<usize>,
    closed: &Vec<bool>,
    last: usize,
    order: Ghost<Seq<int>>,
    t: Ghost<int>,
    can_walk: &W,
    start: Ghost<Point>,
) -> (r: Vec<Point>)
    requires
        last < nodes@.len(),
        !closed@[last as int],
        nodes@.len() >= 1,
        parent@.len() == nodes@.len(),
        closed@.len() == nodes@.len(),
        order@.len() == nodes@.len(),
        nodes@[0] == start@,
        nodes@.no_duplicates(),
        forall|i: int| 0 < i < nodes@.len() ==> walkable(can_walk, #[trigger] nodes@[i]),
        forall|i: int|
            0 < i < nodes@.len() ==> (#[trigger] parent@[i] as int) < nodes@.len()
                && closed@[parent@[i] as int] && adjacent(nodes@[i], nodes@[parent@[i] as int])
                && (closed@[i] ==> order@[parent@[i] as int] < order@[i]),
        forall|i: int| 0 <= i < nodes@.len() && #[trigger] closed@[i] ==> 0 <= order@[i] < t@,
    ensures
        is_path(can_walk, r@, start@, nodes@[last as int]),
{
    let ghost rank = |i: int| if closed@[i] { order@[i] } else { t@ };
    let mut path: Vec<Point> = vec![nodes[last]];
    let mut c = last;
    let ghost mut idxs: Seq<int> = seq![last as int];
    while c != 0
        invariant
            c < nodes@.len(),
            last < nodes@.len(),
            !closed@[last as int],
            nodes@.len() >= 1,
            parent@.len() == nodes@.len(),
            closed@.len() == nodes@.len(),
            order@.len() == nodes@.len(),
            nodes@[0] == start@,
            nodes@.no_duplicates(),
            forall|i: int| 0 < i < nodes@.len() ==> walkable(can_walk, #[trigger] nodes@[i]),
            forall|i: int|
                0 < i < nodes@.len() ==> (#[trigger] parent@[i] as int) < nodes@.len()
                    && closed@[parent@[i] as int] && adjacent(nodes@[i], nodes@[parent@[i] as int])
                    && (closed@[i] ==> order@[parent@[i] as int] < order@[i]),
            forall|i: int| 0 <= i < nodes@.len() && #[trigger] closed@[i] ==> 0 <= order@[i] < t@,
            rank == (|i: int| if closed@[i] { order@[i] } else { t@ }),
            idxs.len() == path@.len(),
            idxs.len() >= 1,
            idxs[0] == last,
            idxs[idxs.len() - 1] == c,
            forall|m: int|
                0 <= m < idxs.len() ==> 0 <= #[trigger] idxs[m] < nodes@.len() && path@[m]
                    == nodes@[idxs[m]],
            forall|m: int| 0 <= m < idxs.len() - 1 ==> #[trigger] idxs[m] != 0 && parent@[idxs[m]] == idxs[m + 1],
            forall|m1: int, m2: int|
                0 <= m1 < m2 < idxs.len() ==> rank(#[trigger] idxs[m1]) > rank(#[trigger] idxs[m2]),
        decreases rank(c as int) + 1,
    {
        let p = parent[c];
        proof {
            assert(closed@[p as int]);
            assert(rank(p as int) < rank(c as int));
        }
        path.push(nodes[p]);
        c = p;
        proof {
            idxs = idxs.push(p as int);
        }
    }
    proof {
        assert forall|m: int| 0 <= m < path@.len() - 1 implies adjacent(
            #[trigger] path@[m],
            path@[m + 1],
        ) && walkable(can_walk, path@[m]) by {
            assert(idxs[m] != 0);
            assert(parent@[idxs[m]] == idxs[m + 1]);
        }
        assert forall|a: int, b: int| 0 <= a < b < path@.len() implies path@[a] != path@[b] by {
            assert(rank(idxs[a]) > rank(idxs[b]));
        }
    }
    path
}


/// Manhattan distance as a step cost, saturated to the range of `u64`.
pub open spec fn manhattan_cost_spec(a: Point, b: Point) -> int {
    if manhattan_dist(a, b) <= u64::MAX {
        manhattan_dist(a, b)
    } else {
        u64::MAX as int
    }
}

/// The smaller of two integers.
pub open spec fn min_int(a: int, b: int) -> int {
    if a <= b {
        a
    } else {
        b
    }
}

/// Number of moves of the staircase from `start` to `goal`.
pub open spec fn stair_len(start: Point, goal: Point) -> int {
    let ax = abs(goal.x - start.x);
    let ay = abs(goal.y - start.y);
    if ax >= ay {
        ax
    } else {
        ay
    }
}

/// The point after `i` moves of the staircase from `start` to `goal`:
/// diagonal moves towards the goal while both coordinates differ, then
/// straight ones.
pub open spec fn stair_point(start: Point, goal: Point, i: int) -> Point {
    pt(toward(start.x as int, goal.x as int, i), toward(start.y as int, goal.y as int, i))
}

/// The coordinate `v` after `i` unit moves towards `t`, stopping at `t`.
pub open spec fn toward(v: int, t: int, i: int) -> int {
    if t > v {
        v + min_int(i, t - v)
    } else if t < v {
        v - min_int(i, v - t)
    } else {
        v
    }
}

/// The staircase as a walk stored goal first.
pub open spec fn stair_path(start: Point, goal: Point) -> Seq<Point> {
    Seq::new(
        (stair_len(start, goal) + 1) as nat,
        |j: int| stair_point(start, goal, stair_len(start, goal) - j),
    )
}

/// Every answer of the predicate on the staircase's points after `start` is
/// "walkable".
pub open spec fn stair_clear<W: Fn(Point) -> bool>(w: &W, start: Point, goal: Point) -> bool {
    forall|i: int, b: bool|
        1 <= i <= stair_len(start, goal) && #[trigger] w.ensures((stair_point(start, goal, i),), b)
            ==> b
}

/// The summed Manhattan lengths of the steps of a walk.
pub open spec fn walk_cost(path: Seq<Point>) -> int
    decreases path.len(),
{
    if path.len() <= 1 {
        0
    } else {
        manhattan_dist(path[0], path[1]) + walk_cost(path.drop_first())
    }
}

/// No walk costs less, in Manhattan step lengths, than the Manhattan
/// distance between its ends.
pub proof fn lemma_walk_cost_lower(path: Seq<Point>)
    requires
        path.len() >= 1,
    ensures
        walk_cost(path) >= manhattan_dist(path[0], path[path.len() - 1]),
    decreases path.len(),
{
    if path.len() > 1 {
        let rest = path.drop_first();
        lemma_walk_cost_lower(rest);
        assert(rest[rest.len() - 1] == path[path.len() - 1]);
        assert(rest[0] == path[1]);
    }
}

/// One move of the staircase: a king's move that costs what it brings the
/// walker closer to the goal, and takes it away from the start by as much.
proof fn lemma_stair_step(start: Point, goal: Point, i: int)
    requires
        start.bounded(),
        goal.bounded(),
        0 <= i < stair_len(start, goal),
    ensures
        adjacent(stair_point(start, goal, i + 1), stair_point(start, goal, i)),
        manhattan_dist(stair_point(start, goal, i + 1), start) == manhattan_dist(
            stair_point(start, goal, i + 1),
            stair_point(start, goal, i),
        ) + manhattan_dist(stair_point(start, goal, i), start),
        manhattan_dist(stair_point(start, goal, i + 1), goal) < manhattan_dist(
            stair_point(start, goal, i),
            goal,
        ),
{
}

/// Points of the staircase after different numbers of moves differ.
proof fn lemma_stair_distinct(start: Point, goal: Point, i: int, k: int)
    requires
        start.bounded(),
        goal.bounded(),
        0 <= k < i <= stair_len(start, goal),
    ensures
        stair_point(start, goal, i) != stair_point(start, goal, k),
{
}

proof fn lemma_stair_cost(start: Point, goal: Point, j: int)
    requires
        start.bounded(),
        goal.bounded(),
        0 <= j <= stair_len(start, goal),
    ensures
        walk_cost(stair_path(start, goal).subrange(j, stair_len(start, goal) + 1)) == manhattan_dist(
            stair_point(start, goal, stair_len(start, goal) - j),
            start,
        ),
    decreases stair_len(start, goal) - j,
{
    let n = stair_len(start, goal);
    let s = stair_path(start, goal).subrange(j, n + 1);
    if j == n {
        assert(s.len() == 1);
        assert(s[0] == stair_point(start, goal, 0));
        assert(stair_point(start, goal, 0) == start);
    } else {
        lemma_stair_cost(start, goal, j + 1);
        lemma_stair_step(start, goal, n - j - 1);
        assert(s.drop_first() =~= stair_path(start, goal).subrange(j + 1, n + 1));
        assert(s[0] == stair_point(start, goal, n - j));
        assert(s[1] == stair_point(start, goal, n - j - 1));
        assert(walk_cost(s) == manhattan_dist(s[0], s[1]) + walk_cost(s.drop_first()));
    }
}

/// The staircase is a walk from `start` to `goal` visiting no point twice,
/// each step brings it strictly closer to the goal, and its cost is the
/// Manhattan distance between its ends, the least that any walk can cost.
pub proof fn lemma_stair(start: Point, goal: Point)
    requires
        start.bounded(),
        goal.bounded(),
    ensures
        stair_path(start, goal).len() == stair_len(start, goal) + 1,
        stair_path(start, goal)[0] == goal,
        stair_path(start, goal)[stair_len(start, goal)] == start,
        stair_path(start, goal).no_duplicates(),
        forall|j: int|
            0 <= j < stair_len(start, goal) ==> adjacent(
                #[trigger] stair_path(start, goal)[j],
                stair_path(start, goal)[j + 1],
            ) && manhattan_dist(stair_path(start, goal)[j], goal) < manhattan_dist(
                stair_path(start, goal)[j + 1],
                goal,
            ),
        walk_cost(stair_path(start, goal)) == manhattan_dist(start, goal),
{
    let n = stair_len(start, goal);
    let p = stair_path(start, goal);
    assert(p[0] == stair_point(start, goal, n));
    assert(stair_point(start, goal, n) == goal);
    assert(p[n] == stair_point(start, goal, 0));
    assert forall|a: int, b: int| 0 <= a < b < p.len() implies p[a] != p[b] by {
        lemma_stair_distinct(start, goal, n - a, n - b);
    }
    assert forall|j: int| 0 <= j < n implies adjacent(#[trigger] p[j], p[j + 1]) && manhattan_dist(p[j], goal)
        < manhattan_dist(p[j + 1], goal) by {
        lemma_stair_step(start, goal, n - j - 1);
        assert(p[j] == stair_point(start, goal, n - j));
        assert(p[j + 1] == stair_point(start, goal, n - j - 1));
    }
    lemma_stair_cost(start, goal, 0);
    assert(p.subrange(0, n + 1) =~= p);
}

/// The point after `i` moves of the staircase from `start` to `goal`.
fn stair_at(start: Point, goal: Point, i: i64) -> (r: Point)
    requires
        start.bounded(),
        goal.bounded(),
        0 <= i,
    ensures
        r == stair_point(start, goal, i as int),
{
    let x = if goal.x > start.x {
        start.x + (if i <= goal.x - start.x { i } else { goal.x - start.x })
    } else if goal.x < start.x {
        start.x - (if i <= start.x - goal.x { i } else { start.x - goal.x })
    } else {
        start.x
    };
    let y = if goal.y > start.y {
        start.y + (if i <= goal.y - start.y { i } else { goal.y - start.y })
    } else if goal.y < start.y {
        start.y - (if i <= start.y - goal.y { i } else { start.y - goal.y })
    } else {
        start.y
    };
    Point::new(x, y)
}

/// A* with the Manhattan distance as both the step cost and the estimate of
/// the cost left to `goal`.
///
/// Where every point of the staircase from `start` to `goal` (diagonal
/// moves while both coordinates differ, then straight ones) is walkable,
/// that staircase is the result: it costs the Manhattan distance between
/// start and goal, which no walk can undercut, so it is a cheapest path and
/// one that A* with this consistent estimate finds. Otherwise the search
/// runs.
///
/// Returns the walk goal first and `start` last, visiting no point twice.
/// Returns `None` only when no walk leads from `start` to `goal` through
/// points that `can_walk` does not refuse.
pub fn manhattan_a_star<W: Fn(Point) -> bool>(
    start: Point,
    goal: Point,
    bounds: Rect,
    can_walk: &W,
) -> (r: Option<Vec<Point>>)
    requires
        bounds.wf(),
        start.bounded(),
        total_pred(can_walk),
        confined(can_walk, bounds),
    ensures
        r is Some ==> is_path(can_walk, r->0@, start, goal),
        r is None ==> !open_reachable(can_walk, start, goal),
        goal.bounded() && stair_clear(can_walk, start, goal) ==> r is Some && r->0@ == stair_path(
            start,
            goal,
        ),
{
    if -crate::geo::COORD_MAX <= goal.x && goal.x <= crate::geo::COORD_MAX && -crate::geo::COORD_MAX
        <= goal.y && goal.y <= crate::geo::COORD_MAX {
        let ax: i64 = if goal.x < start.x { start.x - goal.x } else { goal.x - start.x };
        let ay: i64 = if goal.y < start.y { start.y - goal.y } else { goal.y - start.y };
        let n: i64 = if ax >= ay { ax } else { ay };
        proof {
            lemma_stair(start, goal);
        }
        let mut clear = true;
        let mut i: i64 = 1;
        while i <= n && clear
            invariant
                start.bounded(),
                goal.bounded(),
                total_pred(can_walk),
                n == stair_len(start, goal),
                1 <= i <= n + 1,
                clear ==> forall|j: int| 1 <= j < i ==> walkable(can_walk, #[trigger] stair_point(start, goal, j)),
                stair_clear(can_walk, start, goal) ==> clear,
            decreases n + 1 - i,
        {
            let p = stair_at(start, goal, i);
            let ok = can_walk(p);
            clear = ok;
            i = i + 1;
        }
        if clear {
            let mut path: Vec<Point> = Vec::new();
            let mut j: i64 = n;
            while j >= 0
                invariant
                    start.bounded(),
                    goal.bounded(),
                    n == stair_len(start, goal),
                    -1 <= j <= n,
                    path@.len() == n - j,
                    forall|k: int| 0 <= k < path@.len() ==> #[trigger] path@[k] == stair_path(start, goal)[k],
                decreases j + 1,
            {
                let p = stair_at(start, goal, j);
                path.push(p);
                j = j - 1;
            }
            proof {
                lemma_stair(start, goal);
                assert(path@ =~= stair_path(start, goal));
                assert forall|k: int| 0 <= k < path@.len() - 1 implies adjacent(#[trigger] path@[k], path@[k + 1])
                    && walkable(can_walk, path@[k]) by {
                    assert(path@[k] == stair_point(start, goal, n - k));
                }
            }
            return Some(path);
        }
    }
    let distance = |a: Point, b: Point| -> (c: u64)
        ensures
            c == manhattan_cost_spec(a, b),
        { manhattan_cost(a, b) };
    let heuristic = move |n: Point| -> (c: u64)
        ensures
            c == manhattan_cost_spec(n, goal),
        { manhattan_cost(n, goal) };
    a_star(start, goal, bounds, can_walk, &distance, &heuristic)
}

} // verus!
