//! Actors and their navigation: per-agent goals and cached paths, goal
//! strategies, field-of-view refresh and the per-tick movement step.
use crate::fov::milazzo;
use crate::geo::adjacent;
use crate::geo::Point;
use crate::graph::is_path;
use crate::graph::is_open_walk;
use crate::graph::open_reachable;
use crate::graph::refused;
use crate::graph::manhattan_a_star;
use crate::graph::stair_clear;
use crate::graph::stair_len;
use crate::graph::stair_path;
use crate::graph::stair_point;
use crate::map::Floor;
use crate::map::Tile;
use vstd::prelude::*;

verus! {

/// Whether the simulation may advance this frame.
#[derive(Clone, Copy, PartialEq, Eq, Structural, Debug)]
pub enum TurnMode {
    /// Waiting for the player to act: no agent moves.
    Waiting,
    /// The player has acted: every agent may take one step.
    Running,
}

/// Ends the agents' turn at the end of a frame.
pub fn end_turn(mode: &mut TurnMode)
    ensures
        *final(mode) == TurnMode::Waiting,
{
    *mode = TurnMode::Waiting;
}

/// `p` holds ground on `floor`.
pub open spec fn ground(floor: &Floor, p: Point) -> bool {
    floor.tile_at(p) == Tile::Ground
}

/// `path` is a walk over ground from `start` to `goal`, stored goal first,
/// visiting no point twice.
pub open spec fn floor_path(floor: &Floor, path: Seq<Point>, start: Point, goal: Point) -> bool {
    &&& path.len() >= 1
    &&& path[0] == goal
    &&& path[path.len() - 1] == start
    &&& path.no_duplicates()
    &&& forall|i: int|
        0 <= i < path.len() - 1 ==> adjacent(#[trigger] path[i], path[i + 1]) && ground(
            floor,
            path[i],
        )
}

/// Some walk over ground leads from `start` to `goal`.
pub open spec fn floor_reachable(floor: &Floor, start: Point, goal: Point) -> bool {
    exists|path: Seq<Point>|
        {
            &&& path.len() >= 1
            &&& path[0] == goal
            &&& path[path.len() - 1] == start
            &&& forall|i: int|
                0 <= i < path.len() - 1 ==> adjacent(#[trigger] path[i], path[i + 1]) && ground(
                    floor,
                    path[i],
                )
        }
}

/// Component: the field of view of an actor.
pub struct Fov {
    /// Semi-axes of the view ellipse.
    pub range: Point,
    /// The points visible now.
    pub visible: Vec<Point>,
    /// Every point ever visible.
    pub seen: Vec<Point>,
}

/// A goal strategy: a dungeon-wide wander or the chase of a visible player.
pub enum Tactic {
    Wander(Wander),
    Chase(Chase),
}

/// Wanders about: the goal is a random point of a random room.
#[derive(Clone, Copy, PartialEq, Eq, Structural, Debug)]
pub struct Wander;

/// Chases a player in sight; remembers which actor it follows.
#[derive(Clone, Copy, PartialEq, Eq, Structural, Debug)]
pub struct Chase {
    pub target: Option<usize>,
}

/// Component: an actor that walks towards goals produced by its script of
/// tactics, following a cached path.
pub struct Pathfind {
    /// The tactics, highest priority first.
    pub script: Vec<Tactic>,
    /// The current objective, if any.
    pub goal: Option<Point>,
    /// The cached path, goal first and the actor's position last.
    pub path: Vec<Point>,
}

impl Pathfind {
    /// The cached path leads to the goal over ground, one king's move at a
    /// time, visiting no point twice.
    pub open spec fn valid(&self, floor: &Floor) -> bool {
        &&& self.path@.no_duplicates()
        &&& self.path@.len() > 0 && self.goal is Some ==> self.goal == Some(self.path@[0])
        &&& forall|i: int|
            0 <= i < self.path@.len() - 1 ==> adjacent(
                #[trigger] self.path@[i],
                self.path@[i + 1],
            ) && ground(floor, self.path@[i])
    }

    /// The cache holds a path that ends at `current`.
    pub open spec fn cache_valid(&self, current: Point) -> bool {
        self.path@.len() > 0 && self.path@[self.path@.len() - 1] == current
    }

    /// A `Pathfind` with the given script, no goal and no path.
    pub fn new(script: Vec<Tactic>) -> (r: Pathfind)
        ensures
            r.script@ == script@,
            r.goal is None,
            r.path@.len() == 0,
    {
        Pathfind { script, goal: None, path: Vec::new() }
    }

    /// Recomputes the path from `current` to the goal over ground; the path
    /// is empty when the goal cannot be reached. Occupied cells do not
    /// constrain the search.
    pub fn repath(&mut self, current: Point, floor: &Floor, occupied: &Vec<Point>)
        requires
            floor.wf(),
            current.bounded(),
            old(self).valid(floor),
        ensures
            repathed(*old(self), current, floor, *final(self)),
    {
        if let Some(goal) = self.goal {
            let bounds = floor.bounds();
            let can_walk = |p: Point| -> (r: bool)
                requires
                    floor.wf(),
                ensures
                    r == ground(floor, p),
                { floor.is_ground(p) };
            proof {
                assert forall|p: Point| #[trigger] can_walk.ensures((p,), true) implies bounds.has(
                    p,
                ) by {
                    assert(floor.tile_at(p) != Tile::Void);
                }
                if floor_reachable(floor, current, goal) {
                    let path = choose|path: Seq<Point>|
                        {
                            &&& path.len() >= 1
                            &&& path[0] == goal
                            &&& path[path.len() - 1] == current
                            &&& forall|i: int|
                                0 <= i < path.len() - 1 ==> adjacent(
                                    #[trigger] path[i],
                                    path[i + 1],
                                ) && ground(floor, path[i])
                        };
                    assert forall|i: int| 0 <= i < path.len() - 1 implies !refused(
                        &can_walk,
                        #[trigger] path[i],
                    ) by {
                        assert(ground(floor, path[i]));
                    }
                    assert(is_open_walk(&can_walk, path, current, goal));
                }
            }
            proof {
                if stair_ground(floor, current, goal) {
                    assert forall|i: int, b: bool|
                        1 <= i <= stair_len(current, goal) && #[trigger] can_walk.ensures((stair_point(current, goal, i),), b)
                            implies b by {
                        assert(ground(floor, stair_point(current, goal, i)));
                    }
                    assert(stair_clear(&can_walk, current, goal));
                }
            }
            let found = manhattan_a_star(current, goal, bounds, &can_walk);
            self.path = match found {
                Some(path) => path,
                None => Vec::new(),
            };
            proof {
                if self.path@.len() > 0 {
                    assert(is_path(&can_walk, self.path@, current, goal));
                    assert(self.path@[0] == goal);
                } else {
                    assert(!open_reachable(&can_walk, current, goal));
                }
            }
        }
    }
}


/// What `Pathfind::repath` at `current` leaves: goal and script kept, and
/// the path a walk over ground from `current` to the goal, visiting no point
/// twice, or empty exactly when no walk over ground leads there. Without a
/// goal nothing changes.
pub open spec fn repathed(before: Pathfind, current: Point, floor: &Floor, after: Pathfind) -> bool {
    &&& after.valid(floor)
    &&& after.goal == before.goal
    &&& after.script@ == before.script@
    &&& before.goal is None ==> after.path@ == before.path@
    &&& before.goal is Some ==> (after.path@.len() == 0 <==> !floor_reachable(
        floor,
        current,
        before.goal->0,
    ))
    &&& before.goal is Some && after.path@.len() > 0 ==> floor_path(
        floor,
        after.path@,
        current,
        before.goal->0,
    )
    &&& before.goal is Some && stair_ground(floor, current, before.goal->0) ==> after.path@
        == stair_path(current, before.goal->0)
}

/// Every point of the staircase from `start` to `goal` after `start` holds
/// ground.
pub open spec fn stair_ground(floor: &Floor, start: Point, goal: Point) -> bool {
    &&& goal.bounded()
    &&& forall|i: int| 1 <= i <= stair_len(start, goal) ==> ground(floor, #[trigger] stair_point(start, goal, i))
}

/// What `Pathfind::next_pos` at `current` leaves and returns.
pub open spec fn next_step(
    before: Pathfind,
    current: Point,
    floor: &Floor,
    after: Pathfind,
    r: Option<Point>,
) -> bool {
    &&& after.valid(floor)
    &&& after.script@ == before.script@
    &&& before.goal is None || before.goal == Some(current) ==> r is None && after.goal is None
        && after.path@ == before.path@
    &&& before.goal is Some && before.goal != Some(current) && before.cache_valid(current)
        ==> cached_step(before.path@, current, after.path@, r) && after.goal == before.goal
    &&& before.goal is Some && before.goal != Some(current) && !before.cache_valid(current)
        && floor_reachable(floor, current, before.goal->0) ==> after.goal == before.goal
        && floor_path(floor, after.path@.push(current), current, before.goal->0) && r == Some(
        after.path@[after.path@.len() - 1],
    )
    &&& before.goal is Some && before.goal != Some(current) && !before.cache_valid(current)
        && !floor_reachable(floor, current, before.goal->0) ==> r is None && after.goal is None
        && after.path@.len() == 0
    &&& before.goal is Some && before.goal != Some(current) && !before.cache_valid(current)
        && stair_ground(floor, current, before.goal->0) ==> after.path@.push(current) == stair_path(
        current,
        before.goal->0,
    )
    &&& r is Some ==> adjacent(r->0, current) && ground(floor, r->0)
}

/// What `Wander::generate_goal` may return: a point of one of the floor's
/// rooms, `None` on a floor without rooms, and a point whenever every room
/// holds one.
pub open spec fn wander_post(floor: &Floor, r: Option<Point>) -> bool {
    &&& r is Some ==> in_some_room(floor, r->0)
    &&& floor.rooms@.len() == 0 ==> r is None
    &&& rooms_nonempty(floor) ==> r is Some
}

/// What `Chase::generate_goal` leaves and returns: the target is kept while
/// it is a player in sight, else it becomes the first player in sight, or
/// none; the result is the target's position.
pub open spec fn chase_post(
    before: Chase,
    fov: Option<&Fov>,
    actors: Seq<Actor>,
    after: Chase,
    r: Option<Point>,
) -> bool {
    &&& before.target is Some && chase_ok(fov, actors, before.target->0 as int) ==> after.target
        == before.target
    &&& !(before.target is Some && chase_ok(fov, actors, before.target->0 as int)) ==> (
    after.target is None <==> forall|e: int| !chase_ok(fov, actors, e))
    &&& !(before.target is Some && chase_ok(fov, actors, before.target->0 as int))
        && after.target is Some ==> forall|e: int|
        0 <= e < after.target->0 ==> !chase_ok(fov, actors, e)
    &&& after.target is Some ==> chase_ok(fov, actors, after.target->0 as int)
    &&& r == match after.target {
        Some(e) => Some(actors[e as int].pos),
        None => None,
    }
}

/// What `Tactic::generate_goal` leaves and returns.
pub open spec fn tactic_post(
    before: Tactic,
    fov: Option<&Fov>,
    actors: Seq<Actor>,
    floor: &Floor,
    after: Tactic,
    r: Option<Point>,
) -> bool {
    match (before, after) {
        (Tactic::Wander(_), Tactic::Wander(_)) => wander_post(floor, r),
        (Tactic::Chase(c0), Tactic::Chase(c1)) => chase_post(c0, fov, actors, c1, r),
        _ => false,
    }
}

/// What one run of the goal script leaves. The tactics are consulted in
/// order, skipping those that do not run every tick while a goal is set.
/// Either every consulted tactic returned `None`, and the goal and path are
/// kept; or the tactic at some index `k` is the first consulted one that
/// returned a point, and that point is the goal (a new goal drops the path).
/// Tactics not consulted are left as they were.
pub open spec fn refreshed(
    before: Pathfind,
    fov: Option<&Fov>,
    actors: Seq<Actor>,
    floor: &Floor,
    after: Pathfind,
) -> bool {
    &&& after.valid(floor)
    &&& after.script@.len() == before.script@.len()
    &&& forall|j: int|
        0 <= j < before.script@.len() ==> same_kind(before.script@[j], #[trigger] after.script@[j])
    &&& after.goal == before.goal ==> after.path@ == before.path@
    &&& after.goal != before.goal ==> after.path@.len() == 0
    &&& (script_declined(before, fov, actors, floor, after, before.script@.len() as int)
        && after.goal == before.goal) || exists|k: int|
        0 <= k < before.script@.len() && eligible(before.goal, before.script@[k]) && after.goal is Some
            && tactic_post(before.script@[k], fov, actors, floor, after.script@[k], after.goal)
            && script_declined(before, fov, actors, floor, after, k) && forall|j: int|
            k < j < before.script@.len() ==> #[trigger] after.script@[j] == before.script@[j]
    &&& (exists|k: int|
        0 <= k < before.script@.len() && eligible(before.goal, before.script@[k]) && yields(
            before.script@[k],
            fov,
            actors,
            floor,
        )) ==> after.goal is Some
    &&& before.goal is Some && (forall|k: int|
        0 <= k < before.script@.len() ==> !(#[trigger] before.script@[k]).runs_always())
        ==> after.goal == before.goal
}

/// Every tactic before index `k` that was consulted returned `None`, and
/// every one that was skipped is unchanged.
pub open spec fn script_declined(
    before: Pathfind,
    fov: Option<&Fov>,
    actors: Seq<Actor>,
    floor: &Floor,
    after: Pathfind,
    k: int,
) -> bool {
    forall|j: int|
        0 <= j < k ==> if eligible(before.goal, before.script@[j]) {
            tactic_post(before.script@[j], fov, actors, floor, #[trigger] after.script@[j], None)
        } else {
            after.script@[j] == before.script@[j]
        }
}

/// One step along a cached path: the path loses its last point (the
/// position `current`), and the step is the new last point.
pub open spec fn cached_step(path: Seq<Point>, current: Point, new_path: Seq<Point>, r: Option<Point>) -> bool {
    &&& path.len() >= 2
    &&& path[path.len() - 1] == current
    &&& new_path == path.drop_last()
    &&& r == Some(new_path[new_path.len() - 1])
}

impl Pathfind {
    /// The next point that the actor at `current` should walk to.
    ///
    /// Without a goal, or at the goal, the goal is dropped and `None` comes
    /// back. Otherwise a cached path that ends at `current` is followed; any
    /// other cache is first replaced by a new path over ground (without regard
    /// to occupied cells). Where the goal cannot be reached the goal is
    /// dropped and `None` comes back.
    #[verifier::rlimit(100)]
    pub fn next_pos(&mut self, current: Point, floor: &Floor, occupied: &Vec<Point>) -> (r: Option<Point>)
        requires
            floor.wf(),
            current.bounded(),
            old(self).valid(floor),
        ensures
            next_step(*old(self), current, floor, *final(self), r),
    {
        let ghost s0 = *self;
        let at_goal = match self.goal {
            None => true,
            Some(g) => g == current,
        };
        if at_goal {
            self.goal = None;
            proof {
                assert(self.path@ == s0.path@);
                assert(self.script@ == s0.script@);
            }
            return None;
        }
        let valid = self.path.len() > 0 && self.path[self.path.len() - 1] == current;
        if !valid {
            self.repath(current, floor, occupied);
        }
        let ghost full = self.path@;
        let ghost g = s0.goal->0;
        proof {
            assert(valid == s0.cache_valid(current));
            if valid {
                assert(full == s0.path@);
            }
            assert(self.goal == s0.goal);
            if full.len() > 0 {
                assert(full[0] == g);
                assert(full[0] != current);
                assert(full[full.len() - 1] == current) by {
                    if !valid {
                        assert(floor_path(floor, full, current, g));
                    }
                }
                assert(full.len() >= 2);
                assert(adjacent(full[full.len() - 2], full[full.len() - 1]));
            }
        }
        self.path.pop();
        let next = if self.path.len() > 0 {
            Some(self.path[self.path.len() - 1])
        } else {
            None
        };
        if self.path.len() == 0 {
            self.goal = None;
        }
        proof {
            assert(self.script@ == s0.script@);
            if full.len() > 0 {
                assert(self.path@ =~= full.drop_last());
                assert(full.drop_last().push(current) =~= full);
                assert(self.goal == s0.goal);
            }
            if valid {
                assert(cached_step(s0.path@, current, self.path@, next));
            } else if floor_reachable(floor, current, g) {
                assert(full.len() > 0);
                assert(floor_path(floor, self.path@.push(current), current, g));
            } else {
                assert(full.len() == 0);
            }
        }
        next
    }
}

/// Following a cached path: where each call of `next_pos` is made at the
/// point that the call before returned, starting from a valid cache, the
/// cache stays valid, the actor retraces the cached path point by point,
/// and so visits no point twice.
pub proof fn lemma_cached_walk(paths: Seq<Seq<Point>>, positions: Seq<Point>)
    requires
        paths.len() == positions.len(),
        paths.len() >= 1,
        paths[0].no_duplicates(),
        paths[0].len() >= 1,
        paths[0][paths[0].len() - 1] == positions[0],
        forall|i: int|
            0 <= i < paths.len() - 1 ==> #[trigger] cached_step(
                paths[i],
                positions[i],
                paths[i + 1],
                Some(positions[i + 1]),
            ),
    ensures
        positions.len() <= paths[0].len(),
        forall|i: int|
            0 <= i < positions.len() ==> #[trigger] positions[i] == paths[0][paths[0].len() - 1
                - i],
        positions.no_duplicates(),
{
    let n = paths[0].len() as int;
    lemma_cached_walk_prefix(paths, positions, positions.len() - 1);
    assert forall|i: int| 0 <= i < positions.len() implies paths[i] == paths[0].take(n - i)
        && n - i >= 1 && #[trigger] positions[i] == paths[0][n - 1 - i] by {
        lemma_cached_walk_prefix(paths, positions, i);
    }
    assert forall|a: int, b: int| 0 <= a < b < positions.len() implies positions[a]
        != positions[b] by {
        assert(positions[a] == paths[0][n - 1 - a]);
        assert(positions[b] == paths[0][n - 1 - b]);
    }
}

proof fn lemma_cached_walk_prefix(paths: Seq<Seq<Point>>, positions: Seq<Point>, i: int)
    requires
        paths.len() == positions.len(),
        paths.len() >= 1,
        paths[0].len() >= 1,
        paths[0][paths[0].len() - 1] == positions[0],
        forall|j: int|
            0 <= j < paths.len() - 1 ==> #[trigger] cached_step(
                paths[j],
                positions[j],
                paths[j + 1],
                Some(positions[j + 1]),
            ),
        0 <= i < positions.len(),
    ensures
        paths[i] == paths[0].take(paths[0].len() - i),
        paths[0].len() - i >= 1,
        positions[i] == paths[0][paths[0].len() - 1 - i],
    decreases i,
{
    let n = paths[0].len() as int;
    if i == 0 {
        assert(paths[0].take(n) =~= paths[0]);
    } else {
        lemma_cached_walk_prefix(paths, positions, i - 1);
        assert(cached_step(paths[i - 1], positions[i - 1], paths[(i - 1) + 1], Some(positions[(i - 1) + 1])));
        assert(paths[i] =~= paths[0].take(n - i));
    }
}


/// Walking towards a goal over a staircase of ground: where the cached path
/// is the staircase from the first position to the goal, as `repath` makes
/// it whenever that staircase is ground, each call of `next_pos` made at the
/// point that the call before returned brings the actor strictly closer to
/// the goal, in Manhattan distance, and it never visits a point twice.
pub proof fn lemma_stair_walk_descends(paths: Seq<Seq<Point>>, positions: Seq<Point>, goal: Point)
    requires
        paths.len() == positions.len(),
        paths.len() >= 1,
        positions[0].bounded(),
        goal.bounded(),
        paths[0] == stair_path(positions[0], goal),
        forall|i: int|
            0 <= i < paths.len() - 1 ==> #[trigger] cached_step(
                paths[i],
                positions[i],
                paths[i + 1],
                Some(positions[i + 1]),
            ),
    ensures
        positions.no_duplicates(),
        forall|i: int|
            0 <= i < positions.len() - 1 ==> crate::geo::manhattan_dist(#[trigger] positions[i + 1], goal)
                < crate::geo::manhattan_dist(positions[i], goal),
{
    crate::graph::lemma_stair(positions[0], goal);
    let n = paths[0].len() as int;
    lemma_cached_walk(paths, positions);
    assert forall|i: int| 0 <= i < positions.len() - 1 implies crate::geo::manhattan_dist(
        #[trigger] positions[i + 1],
        goal,
    ) < crate::geo::manhattan_dist(positions[i], goal) by {
        assert(positions[i] == paths[0][n - 1 - i]);
        assert(positions[i + 1] == paths[0][n - 1 - (i + 1)]);
        assert(paths[0][n - 2 - i] == stair_path(positions[0], goal)[n - 2 - i]);
    }
}

/// Relies on `rand::seq::SliceRandom::choose`: `None` on an empty slice,
/// else one of its elements, drawn with the thread-local generator.
#[verifier::external_body]
fn choose_from<T: Copy>(items: &Vec<T>) -> (r: Option<T>)
    ensures
        r is None <==> items@.len() == 0,
        r is Some ==> items@.contains(r->0),
{
    rand::seq::SliceRandom::choose(items.as_slice(), &mut rand::thread_rng()).copied()
}

/// Component: an actor of the world.
pub struct Actor {
    pub pos: Point,
    /// The actor is a player.
    pub player: bool,
    /// The actor takes up its cell: no other tangible actor may enter it.
    pub tangible: bool,
    pub fov: Option<Fov>,
}

/// The field of view `fov` shows `p`; an actor without one sees everything.
pub open spec fn sees(fov: Option<&Fov>, p: Point) -> bool {
    match fov {
        None => true,
        Some(f) => f.visible@.contains(p),
    }
}

/// Actor `e` is a player that `fov` shows.
pub open spec fn chase_ok(fov: Option<&Fov>, actors: Seq<Actor>, e: int) -> bool {
    0 <= e < actors.len() && actors[e].player && sees(fov, actors[e].pos)
}

/// `p` lies in one of the floor's rooms.
pub open spec fn in_some_room(floor: &Floor, p: Point) -> bool {
    exists|i: int| 0 <= i < floor.rooms@.len() && (#[trigger] floor.rooms@[i]).has(p)
}

/// The floor has rooms, and each holds a point.
pub open spec fn rooms_nonempty(floor: &Floor) -> bool {
    floor.rooms@.len() > 0 && forall|i: int|
        0 <= i < floor.rooms@.len() ==> exists|p: Point| (#[trigger] floor.rooms@[i]).has(p)
}

/// The tactic produces a goal whatever chance decides.
pub open spec fn yields(t: Tactic, fov: Option<&Fov>, actors: Seq<Actor>, floor: &Floor) -> bool {
    match t {
        Tactic::Wander(_) => rooms_nonempty(floor),
        Tactic::Chase(_) => exists|e: int| chase_ok(fov, actors, e),
    }
}

/// `g` is a goal that the tactic may produce.
pub open spec fn goal_from(t: Tactic, fov: Option<&Fov>, actors: Seq<Actor>, floor: &Floor, g: Point) -> bool {
    match t {
        Tactic::Wander(_) => in_some_room(floor, g),
        Tactic::Chase(_) => exists|e: int| chase_ok(fov, actors, e) && actors[e].pos == g,
    }
}

/// Both tactics are of one kind.
pub open spec fn same_kind(a: Tactic, b: Tactic) -> bool {
    (a is Wander) == (b is Wander)
}

impl Wander {
    /// A random point of a random room of the floor; `None` when the floor
    /// has no room, or the room drawn holds no point.
    pub fn generate_goal(&mut self, floor: &Floor) -> (r: Option<Point>)
        requires
            floor.wf(),
        ensures
            wander_post(floor, r),
    {
        let room = match choose_from(floor.rooms()) {
            Some(room) => room,
            None => return None,
        };
        proof {
            let i = choose|i: int| 0 <= i < floor.rooms@.len() && floor.rooms@[i] == room;
            assert(floor.rooms@[i].wf());
        }
        let points = room.points();
        let r = choose_from(&points);
        proof {
            let i = choose|i: int| 0 <= i < floor.rooms@.len() && floor.rooms@[i] == room;
            if r is Some {
                assert(room.has(r->0));
                assert(floor.rooms@[i].has(r->0));
            } else if rooms_nonempty(floor) {
                let p = choose|p: Point| floor.rooms@[i].has(p);
                assert(points@.contains(p));
            }
        }
        r
    }
}

impl Chase {
    /// A chase with no target yet.
    pub fn new() -> (r: Chase)
        ensures
            r.target is None,
    {
        Chase { target: None }
    }

    /// Always true: the target may move every tick.
    pub fn run_always(&self) -> (r: bool)
        ensures
            r,
    {
        true
    }

    /// Keeps the target while it is a player in sight; else takes the first
    /// player in sight, in the order of `actors`. The goal is the target's
    /// position.
    pub fn generate_goal(&mut self, fov: Option<&Fov>, actors: &Vec<Actor>) -> (r: Option<Point>)
        ensures
            chase_post(*old(self), fov, actors@, *final(self), r),
    {
        let kept = match self.target {
            Some(e) => e < actors.len() && actors[e].player && visible_to(fov, actors[e].pos),
            None => false,
        };
        if !kept {
            self.target = None;
            let mut i: usize = 0;
            while i < actors.len()
                invariant_except_break
                    self.target is None,
                invariant
                    i <= actors@.len(),
                    forall|e: int| 0 <= e < i ==> !chase_ok(fov, actors@, e),
                ensures
                    self.target is None ==> forall|e: int| !chase_ok(fov, actors@, e),
                    self.target is Some ==> chase_ok(fov, actors@, self.target->0 as int) && forall|e: int|
                        0 <= e < self.target->0 ==> !chase_ok(fov, actors@, e),
                decreases actors@.len() - i,
            {
                if actors[i].player && visible_to(fov, actors[i].pos) {
                    self.target = Some(i);
                    break ;
                }
                i = i + 1;
            }
        }
        match self.target {
            Some(e) => Some(actors[e].pos),
            None => None,
        }
    }
}

/// Whether `fov` shows `p`.
fn visible_to(fov: Option<&Fov>, p: Point) -> (r: bool)
    ensures
        r == sees(fov, p),
{
    match fov {
        None => true,
        Some(f) => {
            let mut i: usize = 0;
            while i < f.visible.len()
                invariant
                    fov == Some(f),
                    i <= f.visible@.len(),
                    forall|j: int| 0 <= j < i ==> f.visible@[j] != p,
                decreases f.visible@.len() - i,
            {
                if f.visible[i] == p {
                    assert(f.visible@[i as int] == p);
                    return true;
                }
                i = i + 1;
            }
            false
        },
    }
}

impl Tactic {
    /// Whether the tactic is consulted every tick, even while a goal is set.
    pub open spec fn runs_always(&self) -> bool {
        self is Chase
    }

    /// Whether the tactic is consulted every tick, even while a goal is set.
    pub fn run_always(&self) -> (r: bool)
        ensures
            r == self.runs_always(),
    {
        match self {
            Tactic::Wander(_) => false,
            Tactic::Chase(c) => c.run_always(),
        }
    }

    /// A candidate goal, from the tactic's view of the world.
    pub fn generate_goal(&mut self, fov: Option<&Fov>, actors: &Vec<Actor>, floor: &Floor) -> (r: Option<Point>)
        requires
            floor.wf(),
        ensures
            tactic_post(*old(self), fov, actors@, floor, *final(self), r),
            same_kind(*old(self), *final(self)),
            r is Some ==> goal_from(*old(self), fov, actors@, floor, r->0),
            yields(*old(self), fov, actors@, floor) ==> r is Some,
    {
        match self {
            Tactic::Wander(w) => w.generate_goal(floor),
            Tactic::Chase(c) => c.generate_goal(fov, actors),
        }
    }
}


/// The tactic is consulted while the goal is `goal`.
pub open spec fn eligible(goal: Option<Point>, t: Tactic) -> bool {
    goal is None || t.runs_always()
}

impl Pathfind {
    /// Runs the goal script: the tactics are consulted in order, skipping
    /// those that do not run every tick while a goal is set, and the first
    /// goal produced becomes the goal. A new goal drops the cached path.
    pub fn refresh_goal(&mut self, fov: Option<&Fov>, actors: &Vec<Actor>, floor: &Floor)
        requires
            floor.wf(),
            old(self).valid(floor),
        ensures
            refreshed(*old(self), fov, actors@, floor, *final(self)),
    {
        let ghost before = self.script@;
        let ghost goal0 = self.goal;
        let ghost path0 = self.path@;
        let ghost s0 = *self;
        let mut k: usize = 0;
        while k < self.script.len()
            invariant
                floor.wf(),
                s0 == *old(self),
                s0.script@ == before,
                s0.goal == goal0,
                forall|j: int| k <= j < before.len() ==> #[trigger] self.script@[j] == before[j],
                script_declined(s0, fov, actors@, floor, *self, k as int),
                before == old(self).script@,
                goal0 == old(self).goal,
                path0 == old(self).path@,
                self.valid(floor),
                self.goal == goal0,
                self.path@ == path0,
                self.script@.len() == before.len(),
                k <= before.len(),
                forall|j: int| 0 <= j < before.len() ==> same_kind(before[j], #[trigger] self.script@[j]),
                forall|j: int|
                    0 <= j < k && eligible(goal0, #[trigger] before[j]) ==> !yields(before[j], fov, actors@, floor),
            decreases before.len() - k,
        {
            let ghost pre = *self;
            let consult = self.goal.is_none() || self.script[k].run_always();
            if !consult {
                proof {
                    assert(!eligible(goal0, before[k as int]));
                    assert forall|j: int| 0 <= j < k + 1 implies (if eligible(s0.goal, s0.script@[j]) {
                        tactic_post(s0.script@[j], fov, actors@, floor, #[trigger] self.script@[j], None)
                    } else {
                        self.script@[j] == s0.script@[j]
                    }) by {}
                }
            }
            if consult {
                let ghost elem = self.script@[k as int];
                proof {
                    assert(same_kind(before[k as int], elem));
                }
                let found = self.script[k].generate_goal(fov, actors, floor);
                proof {
                    assert(same_kind(elem, self.script@[k as int]));
                    assert forall|j: int| 0 <= j < before.len() implies same_kind(
                        before[j],
                        #[trigger] self.script@[j],
                    ) by {
                        if j == k {
                            assert(same_kind(before[j], elem));
                        }
                    }
                    if found is Some {
                        assert(goal_from(elem, fov, actors@, floor, found->0));
                        assert(goal_from(before[k as int], fov, actors@, floor, found->0));
                        assert(eligible(goal0, before[k as int]));
                    } else {
                        assert(!yields(elem, fov, actors@, floor));
                        assert(!yields(before[k as int], fov, actors@, floor));
                    }
                    assert(elem == before[k as int]);
                    assert forall|j: int| 0 <= j < before.len() && j != k implies #[trigger] self.script@[j] == pre.script@[j] by {}
                    assert forall|j: int| 0 <= j < k implies (if eligible(s0.goal, s0.script@[j]) {
                        tactic_post(s0.script@[j], fov, actors@, floor, #[trigger] self.script@[j], None)
                    } else {
                        self.script@[j] == s0.script@[j]
                    }) by {
                        assert(self.script@[j] == pre.script@[j]);
                    }
                    if found is None {
                        assert forall|j: int| 0 <= j < k + 1 implies (if eligible(s0.goal, s0.script@[j]) {
                            tactic_post(s0.script@[j], fov, actors@, floor, #[trigger] self.script@[j], None)
                        } else {
                            self.script@[j] == s0.script@[j]
                        }) by {
                            if j < k {
                                assert(self.script@[j] == pre.script@[j]);
                            }
                        }
                    }
                }
                if let Some(goal) = found {
                    let changed = match self.goal {
                        Some(g) => g != goal,
                        None => true,
                    };
                    self.goal = Some(goal);
                    if changed {
                        self.path.clear();
                    }
                    proof {
                        assert(eligible(goal0, before[k as int]) && goal_from(before[k as int], fov, actors@, floor, goal)
                            && forall|j: int| 0 <= j < k && eligible(goal0, #[trigger] before[j]) ==> !yields(before[j], fov, actors@, floor));
                        assert(tactic_post(s0.script@[k as int], fov, actors@, floor, self.script@[k as int], self.goal));
                        assert(script_declined(s0, fov, actors@, floor, *self, k as int));
                        assert forall|j: int| k < j < before.len() implies #[trigger] self.script@[j] == s0.script@[j] by {}
                    }
                    return;
                }
            }
            k = k + 1;
        }
        proof {
            assert(script_declined(s0, fov, actors@, floor, *self, before.len() as int));
        }
    }
}


/// Whether `v` holds `p`.
fn holds(v: &Vec<Point>, p: Point) -> (r: bool)
    ensures
        r == v@.contains(p),
{
    let mut i: usize = 0;
    while i < v.len()
        invariant
            i <= v@.len(),
            forall|j: int| 0 <= j < i ==> v@[j] != p,
        decreases v@.len() - i,
    {
        if v[i] == p {
            assert(v@[i as int] == p);
            return true;
        }
        i = i + 1;
    }
    false
}

/// Pushing a point that a duplicate-free sequence lacks keeps it
/// duplicate-free and adds exactly that point.
proof fn lemma_push_fresh(s: Seq<Point>, x: Point)
    requires
        s.no_duplicates(),
        !s.contains(x),
    ensures
        s.push(x).no_duplicates(),
        forall|q: Point| #[trigger] s.push(x).contains(q) <==> s.contains(q) || q == x,
{
    let t = s.push(x);
    assert forall|a: int, b: int| 0 <= a < b < t.len() implies t[a] != t[b] by {
        if b == s.len() {
            assert(s.contains(t[a]));
        } else {
            assert(t[a] == s[a] && t[b] == s[b]);
        }
    }
    assert forall|q: Point| #[trigger] t.contains(q) <==> s.contains(q) || q == x by {
        if s.contains(q) {
            let j = choose|j: int| 0 <= j < s.len() && s[j] == q;
            assert(t[j] == q);
        }
        if q == x {
            assert(t[s.len() as int] == q);
        }
        if t.contains(q) {
            let j = choose|j: int| 0 <= j < t.len() && t[j] == q;
            if j < s.len() {
                assert(s[j] == q);
            }
        }
    }
}

/// The points of `v`, each once, in the order of their first appearance.
fn dedup(v: &Vec<Point>) -> (r: Vec<Point>)
    ensures
        r@.no_duplicates(),
        forall|q: Point| #[trigger] r@.contains(q) <==> v@.contains(q),
{
    let mut r: Vec<Point> = Vec::new();
    let mut i: usize = 0;
    while i < v.len()
        invariant
            i <= v@.len(),
            r@.no_duplicates(),
            forall|q: Point| #[trigger] r@.contains(q) <==> exists|j: int| 0 <= j < i && v@[j] == q,
        decreases v@.len() - i,
    {
        let x = v[i];
        let ghost before = r@;
        if !holds(&r, x) {
            r.push(x);
            proof {
                lemma_push_fresh(before, x);
            }
        }
        proof {
            assert forall|q: Point| #[trigger] r@.contains(q) <==> exists|j: int| 0 <= j < i + 1 && v@[j] == q by {
                if q == x {
                    assert(v@[i as int] == q);
                }
                if exists|j: int| 0 <= j < i + 1 && v@[j] == q {
                    let j = choose|j: int| 0 <= j < i + 1 && v@[j] == q;
                    if j < i {
                        assert(before.contains(q));
                    }
                }
                if r@.contains(q) && q != x {
                    assert(before.contains(q));
                }
            }
        }
        i = i + 1;
    }
    proof {
        assert forall|q: Point| #[trigger] r@.contains(q) <==> v@.contains(q) by {
            if v@.contains(q) {
                let j = choose|j: int| 0 <= j < v@.len() && v@[j] == q;
                assert(exists|j: int| 0 <= j < i && v@[j] == q);
            }
        }
    }
    r
}

impl Fov {
    /// Recomputes what the actor at `origin` sees: walls and void block the
    /// view, ground does not. `visible` is refilled and `seen` gains every
    /// visible point.
    pub fn refresh(&mut self, origin: Point, floor: &Floor)
        requires
            floor.wf(),
            crate::fov::valid_origin(origin),
            crate::fov::valid_range(old(self).range),
        ensures
            final(self).range == old(self).range,
            final(self).visible@.contains(origin),
            forall|p: Point|
                #[trigger] final(self).visible@.contains(p) ==> crate::fov::in_view(
                    origin,
                    old(self).range,
                    p,
                ),
            forall|p: Point| #[trigger] final(self).seen@.contains(p) <==> old(self).seen@.contains(p)
                || final(self).visible@.contains(p),
            final(self).visible@.no_duplicates(),
            old(self).seen@.no_duplicates() ==> final(self).seen@.no_duplicates(),
            (forall|p: Point| crate::fov::in_view(origin, old(self).range, p) ==> ground(floor, p))
                ==> forall|p: Point|
                crate::fov::in_view(origin, old(self).range, p) ==> #[trigger] final(self).visible@.contains(p),
    {
        self.visible.clear();
        let range = self.range;
        let is_opaque = |p: Point| -> (r: bool)
            requires
                floor.wf(),
            ensures
                r == !ground(floor, p),
            { !floor.is_ground(p) };
        let ghost open = forall|p: Point| crate::fov::in_view(origin, range, p) ==> ground(floor, p);
        proof {
            if open {
                assert forall|p: Point, b: bool| crate::fov::in_view(origin, range, p) && #[trigger] is_opaque.ensures((p,), b) implies !b by {
                    assert(ground(floor, p));
                }
            }
        }
        milazzo(origin, range, &is_opaque, &mut self.visible);
        proof {
            if open {
                assert forall|p: Point| crate::fov::in_view(origin, range, p) implies self.visible@.contains(p) by {
                    assert(crate::fov::lit_since(self.visible@, 0, p));
                    let k = choose|k: int| 0 <= k && 0 <= k < self.visible@.len() && self.visible@[k] == p;
                }
            }
            assert(self.visible@[0] == origin);
            assert(self.visible@.contains(origin));
            assert forall|p: Point| #[trigger] self.visible@.contains(p) implies crate::fov::in_view(
                origin,
                range,
                p,
            ) by {
                let j = choose|j: int| 0 <= j < self.visible@.len() && self.visible@[j] == p;
            }
        }
        let unique = dedup(&self.visible);
        self.visible = unique;
        let ghost seen0 = self.seen@;
        let ghost vis = self.visible@;
        let mut i: usize = 0;
        while i < self.visible.len()
            invariant
                self.visible@ == vis,
                self.range == range,
                range == old(self).range,
                seen0 == old(self).seen@,
                vis.contains(origin),
                forall|p: Point| #[trigger] vis.contains(p) ==> crate::fov::in_view(origin, range, p),
                open ==> forall|p: Point| crate::fov::in_view(origin, range, p) ==> #[trigger] vis.contains(p),
                i <= self.visible@.len(),
                vis.no_duplicates(),
                seen0.no_duplicates() ==> self.seen@.no_duplicates(),
                forall|q: Point|
                    #[trigger] self.seen@.contains(q) <==> seen0.contains(q) || exists|j: int|
                        0 <= j < i && self.visible@[j] == q,
            decreases self.visible@.len() - i,
        {
            let v = self.visible[i];
            let ghost s_start = self.seen@;
            let present = holds(&self.seen, v);
            if !present {
                let ghost before = self.seen@;
                self.seen.push(v);
                proof {
                    if seen0.no_duplicates() {
                        lemma_push_fresh(before, v);
                    }
                    assert forall|q: Point| #[trigger] self.seen@.contains(q) <==> before.contains(q)
                        || q == v by {
                        if before.contains(q) {
                            let j = choose|j: int| 0 <= j < before.len() && before[j] == q;
                            assert(self.seen@[j] == q);
                        }
                        if q == v {
                            assert(self.seen@[before.len() as int] == q);
                        }
                        if self.seen@.contains(q) {
                            let j = choose|j: int| 0 <= j < self.seen@.len() && self.seen@[j] == q;
                            if j < before.len() {
                                assert(before[j] == q);
                            }
                        }
                    }
                }
            }
            proof {
                assert(forall|q: Point| #[trigger] self.seen@.contains(q) <==> s_start.contains(q)
                    || q == v);
                assert forall|q: Point|
                    #[trigger] self.seen@.contains(q) <==> seen0.contains(q) || exists|j: int|
                        0 <= j < i + 1 && self.visible@[j] == q by {
                    if self.seen@.contains(q) {
                        if q == v {
                            assert(self.visible@[i as int] == q);
                        } else {
                            assert(s_start.contains(q));
                            if !seen0.contains(q) {
                                let j = choose|j: int| 0 <= j < i && self.visible@[j] == q;
                                assert(0 <= j < i + 1 && self.visible@[j] == q);
                            }
                        }
                    }
                    if exists|j: int| 0 <= j < i + 1 && self.visible@[j] == q {
                        let j = choose|j: int| 0 <= j < i + 1 && self.visible@[j] == q;
                        if j == i {
                            assert(q == v);
                        } else {
                            assert(s_start.contains(q));
                        }
                    }
                    if seen0.contains(q) {
                        assert(s_start.contains(q));
                    }
                }
            }
            i = i + 1;
        }
        proof {
            assert forall|q: Point| #[trigger] self.seen@.contains(q) <==> seen0.contains(q)
                || self.visible@.contains(q) by {
                if self.visible@.contains(q) {
                    let j = choose|j: int| 0 <= j < self.visible@.len() && self.visible@[j] == q;
                    assert(0 <= j < i);
                }
            }
        }
    }
}


/// The actors of a level, and beside each its `Pathfind`, if it has one.
pub struct World {
    pub actors: Vec<Actor>,
    pub minds: Vec<Option<Pathfind>>,
}

/// No two tangible actors stand on one cell.
pub open spec fn tangible_apart(actors: Seq<Actor>) -> bool {
    forall|i: int, j: int|
        0 <= i < actors.len() && 0 <= j < actors.len() && i != j && actors[i].tangible
            && actors[j].tangible ==> #[trigger] actors[i].pos != #[trigger] actors[j].pos
}

/// `occupied` holds exactly the cells of the tangible actors.
pub open spec fn occupancy(occupied: Seq<Point>, actors: Seq<Actor>) -> bool {
    forall|q: Point|
        #[trigger] occupied.contains(q) <==> exists|j: int|
            0 <= j < actors.len() && actors[j].tangible && actors[j].pos == q
}

impl World {
    /// One `Pathfind` slot per actor, every position bounded and every cached
    /// path valid on `floor`.
    pub open spec fn wf(&self, floor: &Floor) -> bool {
        &&& self.actors@.len() == self.minds@.len()
        &&& forall|i: int| 0 <= i < self.actors@.len() ==> (#[trigger] self.actors@[i]).pos.bounded()
        &&& forall|i: int|
            0 <= i < self.minds@.len() && (#[trigger] self.minds@[i]) is Some ==> self.minds@[i]->0.valid(
                floor,
            )
    }
}

/// The collision-free cells of the tangible actors.
fn occupied_cells(actors: &Vec<Actor>) -> (r: Vec<Point>)
    ensures
        r@.no_duplicates(),
        occupancy(r@, actors@),
{
    let mut r: Vec<Point> = Vec::new();
    let mut i: usize = 0;
    while i < actors.len()
        invariant
            i <= actors@.len(),
            r@.no_duplicates(),
            forall|q: Point|
                #[trigger] r@.contains(q) <==> exists|j: int|
                    0 <= j < i && actors@[j].tangible && actors@[j].pos == q,
        decreases actors@.len() - i,
    {
        let p = actors[i].pos;
        if actors[i].tangible && !holds(&r, p) {
            let ghost before = r@;
            r.push(p);
            proof {
                assert forall|q: Point| #[trigger] r@.contains(q) <==> before.contains(q) || q == p by {
                    if before.contains(q) {
                        let j = choose|j: int| 0 <= j < before.len() && before[j] == q;
                        assert(r@[j] == q);
                    }
                    if q == p {
                        assert(r@[before.len() as int] == q);
                    }
                    if r@.contains(q) {
                        let j = choose|j: int| 0 <= j < r@.len() && r@[j] == q;
                        if j < before.len() {
                            assert(before[j] == q);
                        }
                    }
                }
                assert forall|a: int, b: int| 0 <= a < b < r@.len() implies r@[a] != r@[b] by {
                    if b == before.len() {
                        assert(before.contains(r@[a]));
                    }
                }
            }
        }
        proof {
            assert forall|q: Point|
                #[trigger] r@.contains(q) <==> exists|j: int|
                    0 <= j < i + 1 && actors@[j].tangible && actors@[j].pos == q by {
                if exists|j: int| 0 <= j < i + 1 && actors@[j].tangible && actors@[j].pos == q {
                    let j = choose|j: int| 0 <= j < i + 1 && actors@[j].tangible && actors@[j].pos == q;
                    if j < i {
                        assert(exists|j: int| 0 <= j < i && actors@[j].tangible && actors@[j].pos == q);
                    }
                }
            }
        }
        i = i + 1;
    }
    r
}

/// Whether a tangible actor stands on `p`.
fn held(actors: &Vec<Actor>, p: Point) -> (r: bool)
    ensures
        r == exists|j: int| 0 <= j < actors@.len() && actors@[j].tangible && actors@[j].pos == p,
{
    let mut i: usize = 0;
    while i < actors.len()
        invariant
            i <= actors@.len(),
            forall|j: int| 0 <= j < i ==> !(actors@[j].tangible && actors@[j].pos == p),
        decreases actors@.len() - i,
    {
        if actors[i].tangible && actors[i].pos == p {
            return true;
        }
        i = i + 1;
    }
    false
}

/// The field of view of an actor, if it has one.
pub open spec fn fov_of(a: &Actor) -> Option<&Fov> {
    match &a.fov {
        Some(f) => Some(f),
        None => None,
    }
}

/// At actor `i`'s turn of a tick that starts at `before` and ends at
/// `after`, some tangible actor stands on `p`: the actors before `i` where
/// they ended, the others where they began.
pub open spec fn held_at(before: Seq<Actor>, after: Seq<Actor>, i: int, p: Point) -> bool {
    exists|j: int|
        0 <= j < before.len() && before[j].tangible && (if j < i {
            after[j].pos
        } else {
            before[j].pos
        }) == p
}

/// What a running tick does to actor `i`, whose `Pathfind` yielded `step`.
///
/// Without a `Pathfind` nothing happens to it. Otherwise its goal script
/// was run against the positions at the start of the tick (`refreshed`),
/// then it asked for its next point (`next_step`), and, where it could not
/// take that step, it replanned (`repathed`). It moves onto the step exactly
/// when the step is ground and no tangible actor stands there at its turn;
/// otherwise it stays.
pub open spec fn ticked(before: World, after: World, floor: &Floor, i: int, step: Option<Point>) -> bool {
    let pos = before.actors@[i].pos;
    &&& after.actors@[i].pos == match step {
        Some(p) => if ground(floor, p) && !held_at(before.actors@, after.actors@, i, p) {
            p
        } else {
            pos
        },
        None => pos,
    }
    &&& before.minds@[i] is None ==> step is None && after.minds@[i] is None
    &&& before.minds@[i] is Some ==> after.minds@[i] is Some && exists|mid: Pathfind, mid2: Pathfind|
        refreshed(before.minds@[i]->0, fov_of(&before.actors@[i]), before.actors@, floor, mid)
            && next_step(mid, pos, floor, mid2, step) && (after.minds@[i]->0 == mid2
            || repathed(mid2, pos, floor, after.minds@[i]->0))
}

proof fn lemma_repathed_trans(a: Pathfind, b: Pathfind, c: Pathfind, pos: Point, floor: &Floor)
    requires
        repathed(a, pos, floor, b),
        repathed(b, pos, floor, c),
    ensures
        repathed(a, pos, floor, c),
{
}

/// `ticked` for actor `j` depends only on the actors up to `j`.
proof fn lemma_ticked_frame(
    w0: World,
    wa: World,
    wb: World,
    floor: &Floor,
    j: int,
    step: Option<Point>,
    i: int,
)
    requires
        0 <= j < i,
        wa.actors@.len() == w0.actors@.len(),
        wb.actors@.len() == w0.actors@.len(),
        forall|k: int| 0 <= k < i ==> wb.actors@[k] == wa.actors@[k] && wb.minds@[k] == wa.minds@[k],
        ticked(w0, wa, floor, j, step),
    ensures
        ticked(w0, wb, floor, j, step),
{
    assert forall|p: Point| held_at(w0.actors@, wa.actors@, j, p) == held_at(w0.actors@, wb.actors@, j, p) by {
        if held_at(w0.actors@, wa.actors@, j, p) {
            let k = choose|k: int|
                0 <= k < w0.actors@.len() && w0.actors@[k].tangible && (if k < j {
                    wa.actors@[k].pos
                } else {
                    w0.actors@[k].pos
                }) == p;
            if k < j {
                assert(wb.actors@[k] == wa.actors@[k]);
            }
        }
        if held_at(w0.actors@, wb.actors@, j, p) {
            let k = choose|k: int|
                0 <= k < w0.actors@.len() && w0.actors@[k].tangible && (if k < j {
                    wb.actors@[k].pos
                } else {
                    w0.actors@[k].pos
                }) == p;
            if k < j {
                assert(wb.actors@[k] == wa.actors@[k]);
            }
        }
    }
    assert(wb.actors@[j] == wa.actors@[j]);
    assert(wb.minds@[j] == wa.minds@[j]);
}

/// Advances every actor with a `Pathfind` by one tick, while `mode` is
/// `Running`, and returns the step that each actor's `Pathfind` yielded
/// (`None` for actors without one, or without a step).
///
/// First every script refreshes its actor's goal, reading the others'
/// positions; no one moves yet. Then, in the order of `world.actors`, each
/// actor asks for its next step. The step is taken if it is ground and no
/// tangible actor stands there; otherwise the actor replans. The step is
/// tested again after each of up to three replans, against the same cells,
/// so a blocked actor replans three times and stays where it is.
pub fn pathfind(world: &mut World, floor: &Floor, mode: TurnMode) -> (steps: Vec<Option<Point>>)
    requires
        floor.wf(),
        old(world).wf(floor),
    ensures
        final(world).wf(floor),
        final(world).actors@.len() == old(world).actors@.len(),
        forall|i: int|
            0 <= i < old(world).actors@.len() ==> (#[trigger] final(world).actors@[i]).tangible
                == old(world).actors@[i].tangible && final(world).actors@[i].player
                == old(world).actors@[i].player && final(world).actors@[i].fov
                == old(world).actors@[i].fov,
        mode != TurnMode::Running ==> final(world).actors@ == old(world).actors@
            && final(world).minds@ == old(world).minds@ && steps@.len() == 0,
        mode == TurnMode::Running ==> steps@.len() == old(world).actors@.len() && forall|i: int|
            0 <= i < old(world).actors@.len() ==> #[trigger] ticked(
                *old(world),
                *final(world),
                floor,
                i,
                steps@[i],
            ),
        tangible_apart(old(world).actors@) ==> tangible_apart(final(world).actors@),
{
    let mut steps: Vec<Option<Point>> = Vec::new();
    if mode != TurnMode::Running {
        return steps;
    }
    let ghost w0 = *world;
    let n = world.actors.len();
    // Goals first: positions do not change in this phase.
    let mut i: usize = 0;
    while i < n
        invariant
            floor.wf(),
            world.wf(floor),
            w0.wf(floor),
            n == world.actors@.len(),
            n == w0.minds@.len(),
            world.actors@ == w0.actors@,
            world.minds@.len() == n,
            i <= n,
            forall|j: int|
                0 <= j < i ==> (w0.minds@[j] is None ==> (#[trigger] world.minds@[j]) is None) && (
                w0.minds@[j] is Some ==> world.minds@[j] is Some && refreshed(
                    w0.minds@[j]->0,
                    fov_of(&w0.actors@[j]),
                    w0.actors@,
                    floor,
                    world.minds@[j]->0,
                )),
            forall|j: int| i <= j < n ==> #[trigger] world.minds@[j] == w0.minds@[j],
        decreases n - i,
    {
        let fov = match &world.actors[i].fov {
            Some(f) => Some(f),
            None => None,
        };
        proof {
            assert(fov == fov_of(&w0.actors@[i as int]));
        }
        match &mut world.minds[i] {
            Some(pf) => pf.refresh_goal(fov, &world.actors, floor),
            None => {},
        }
        i = i + 1;
    }
    let ghost m1 = world.minds@;
    // Then moves, each against the cells that tangible actors hold at its turn.
    let mut i: usize = 0;
    while i < n
        invariant
            floor.wf(),
            world.wf(floor),
            n == world.actors@.len(),
            n == w0.actors@.len(),
            n == w0.minds@.len(),
            m1.len() == n,
            i <= n,
            steps@.len() == i,
            forall|j: int|
                0 <= j < n ==> (w0.minds@[j] is None ==> (#[trigger] m1[j]) is None) && (
                w0.minds@[j] is Some ==> m1[j] is Some && refreshed(
                    w0.minds@[j]->0,
                    fov_of(&w0.actors@[j]),
                    w0.actors@,
                    floor,
                    m1[j]->0,
                )),
            forall|j: int|
                0 <= j < n ==> (#[trigger] world.actors@[j]).tangible == w0.actors@[j].tangible
                    && world.actors@[j].player == w0.actors@[j].player && world.actors@[j].fov
                    == w0.actors@[j].fov,
            forall|j: int| i <= j < n ==> (#[trigger] world.actors@[j]) == w0.actors@[j],
            forall|j: int| i <= j < n ==> (#[trigger] world.minds@[j]) == m1[j],
            forall|j: int| 0 <= j < i ==> #[trigger] ticked(w0, *world, floor, j, steps@[j]),
            tangible_apart(w0.actors@) ==> tangible_apart(world.actors@),
        decreases n - i,
    {
        let ghost wa = *world;
        let pos = world.actors[i].pos;
        let occupied = occupied_cells(&world.actors);
        let step = match &mut world.minds[i] {
            Some(pf) => pf.next_pos(pos, floor, &occupied),
            None => None,
        };
        let ghost after_next = world.minds@[i as int];
        if let Some(p) = step {
            let walkable = floor.is_ground(p);
            let free = !held(&world.actors, p);
            if walkable && free {
                world.actors[i].pos = p;
            } else {
                let mut attempt: usize = 0;
                while attempt < 3
                    invariant
                        floor.wf(),
                        world.wf(floor),
                        n == world.actors@.len(),
                        i < n,
                        world.actors@ == wa.actors@,
                        pos == wa.actors@[i as int].pos,
                        pos.bounded(),
                        after_next is Some,
                        world.minds@[i as int] is Some,
                        world.minds@[i as int] == after_next || repathed(
                            after_next->0,
                            pos,
                            floor,
                            world.minds@[i as int]->0,
                        ),
                        forall|j: int| 0 <= j < n && j != i ==> #[trigger] world.minds@[j] == wa.minds@[j],
                    decreases 3 - attempt,
                {
                    let ghost before_repath = world.minds@[i as int]->0;
                    match &mut world.minds[i] {
                        Some(pf) => pf.repath(pos, floor, &occupied),
                        None => {},
                    }
                    proof {
                        if world.minds@[i as int] != after_next {
                            if before_repath != after_next->0 {
                                lemma_repathed_trans(
                                    after_next->0,
                                    before_repath,
                                    world.minds@[i as int]->0,
                                    pos,
                                    floor,
                                );
                            }
                        }
                    }
                    attempt = attempt + 1;
                }
            }
        }
        let ghost steps_before = steps@;
        steps.push(step);
        proof {
            assert forall|j: int| 0 <= j < i implies #[trigger] ticked(w0, *world, floor, j, steps@[j]) by {
                assert(steps@[j] == steps_before[j]);
                assert(ticked(w0, wa, floor, j, steps_before[j]));
                lemma_ticked_frame(w0, wa, *world, floor, j, steps@[j], i as int);
            }
            let ii = i as int;
            assert(pos == w0.actors@[ii].pos);
            assert(wa.minds@[ii] == m1[ii]);
            assert forall|j: int| 0 <= j < n && j != ii implies #[trigger] world.actors@[j] == wa.actors@[j] by {}
            if step is Some {
                let p = step->0;
                assert(held_at(w0.actors@, world.actors@, ii, p) == exists|j: int|
                    0 <= j < wa.actors@.len() && wa.actors@[j].tangible && wa.actors@[j].pos == p) by {
                    if held_at(w0.actors@, world.actors@, ii, p) {
                        let j = choose|j: int|
                            0 <= j < w0.actors@.len() && w0.actors@[j].tangible && (if j < ii {
                                world.actors@[j].pos
                            } else {
                                w0.actors@[j].pos
                            }) == p;
                        assert(j != ii);
                        assert(wa.actors@[j].tangible && wa.actors@[j].pos == p);
                    }
                    if exists|j: int| 0 <= j < wa.actors@.len() && wa.actors@[j].tangible && wa.actors@[j].pos == p {
                        let j = choose|j: int| 0 <= j < wa.actors@.len() && wa.actors@[j].tangible && wa.actors@[j].pos == p;
                        assert(j != ii);
                        assert(w0.actors@[j].tangible);
                        assert((if j < ii { world.actors@[j].pos } else { w0.actors@[j].pos }) == p);
                    }
                }
                if world.actors@[ii].pos == p && tangible_apart(w0.actors@) {
                    assert forall|a: int, b: int|
                        0 <= a < n && 0 <= b < n && a != b && world.actors@[a].tangible
                            && world.actors@[b].tangible implies #[trigger] world.actors@[a].pos
                        != #[trigger] world.actors@[b].pos by {
                        if a == ii {
                            assert(wa.actors@[b].tangible);
                        } else if b == ii {
                            assert(wa.actors@[a].tangible);
                        } else {
                            assert(wa.actors@[a].pos != wa.actors@[b].pos);
                        }
                    }
                }
            }
            if w0.minds@[ii] is Some {
                let mid = m1[ii]->0;
                let mid2 = after_next->0;
                assert(refreshed(w0.minds@[ii]->0, fov_of(&w0.actors@[ii]), w0.actors@, floor, mid));
                assert(next_step(mid, pos, floor, mid2, step));
            }
            assert(ticked(w0, *world, floor, ii, steps@[ii]));
        }
        i = i + 1;
    }
    steps
}

} // verus!
