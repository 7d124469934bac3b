use dungeon::ai::{end_turn, pathfind, Actor, Chase, Fov, Pathfind, Tactic, TurnMode, Wander, World};
use dungeon::fov::milazzo;
use dungeon::geo::{Dir, Point, Rect};
use dungeon::graph::{a_star, manhattan_a_star, manhattan_cost};
use dungeon::map::{normalize, Floor, Tile};
use std::collections::HashSet;

fn in_ellipse(o: Point, r: Point, p: Point) -> bool {
    let dx = p.x - o.x;
    let dy = p.y - o.y;
    dx * dx * r.y * r.y + dy * dy * r.x * r.x < r.x * r.x * r.y * r.y
}

fn lit_set(origin: Point, range: Point, opaque: &dyn Fn(Point) -> bool) -> (Vec<Point>, HashSet<Point>) {
    let mut lit = Vec::new();
    milazzo(origin, range, &|p: Point| opaque(p), &mut lit);
    let set = lit.iter().cloned().collect();
    (lit, set)
}

fn room_floor(x0: i64, y0: i64, x1: i64, y1: i64) -> Floor {
    let mut floor = Floor::new();
    floor.add_room(Rect::new(Point::new(x0, y0), Point::new(x1, y1)));
    floor
}

#[test]
fn fov_lights_opaque_origin() {
    let origin = Point::new(3, -2);
    let (lit, set) = lit_set(origin, Point::new(4, 4), &|_| true);
    assert_eq!(lit[0], origin);
    assert!(set.contains(&origin));
}

#[test]
fn fov_lights_origin_in_open_field() {
    let origin = Point::new(0, 0);
    let (lit, _) = lit_set(origin, Point::new(1, 1), &|_| false);
    assert_eq!(lit[0], origin);
}

#[test]
fn fov_open_field_is_the_ellipse() {
    for &(rx, ry) in &[(5, 3), (3, 5), (6, 6), (1, 1), (2, 7)] {
        let origin = Point::new(10, -4);
        let range = Point::new(rx, ry);
        let (_, set) = lit_set(origin, range, &|_| false);
        let mut expected = HashSet::new();
        for y in -ry - 1..=ry + 1 {
            for x in -rx - 1..=rx + 1 {
                let p = Point::new(origin.x + x, origin.y + y);
                if in_ellipse(origin, range, p) {
                    expected.insert(p);
                }
            }
        }
        assert_eq!(set, expected, "range {:?}", (rx, ry));
    }
}

#[test]
fn fov_points_stay_inside_ellipse_with_walls() {
    let origin = Point::new(0, 0);
    let range = Point::new(8, 5);
    let (lit, _) = lit_set(origin, range, &|p: Point| (p.x * 7 + p.y * 3) % 5 == 0);
    for p in lit {
        assert!(in_ellipse(origin, range, p));
    }
}

#[test]
fn fov_wall_blocks_points_behind_it() {
    let origin = Point::new(0, 0);
    let range = Point::new(10, 10);
    let (_, set) = lit_set(origin, range, &|p: Point| p.x == 3);
    assert!(set.contains(&Point::new(3, 0)));
    assert!(set.contains(&Point::new(3, 1)));
    for p in &set {
        assert!(p.x <= 3, "{:?} is behind the wall", p);
    }
    assert!(set.contains(&Point::new(-5, 0)));
}

#[test]
fn fov_horizontal_wall_blocks_below() {
    let origin = Point::new(0, 0);
    let range = Point::new(9, 9);
    let (_, set) = lit_set(origin, range, &|p: Point| p.y == 2);
    assert!(set.contains(&Point::new(0, 2)));
    for p in &set {
        assert!(p.y <= 2, "{:?} is behind the wall", p);
    }
}

#[test]
fn fov_pillar_casts_shadow() {
    let origin = Point::new(0, 0);
    let range = Point::new(10, 10);
    let (_, set) = lit_set(origin, range, &|p: Point| p == Point::new(2, 0));
    assert!(set.contains(&Point::new(2, 0)));
    assert!(!set.contains(&Point::new(5, 0)));
    assert!(set.contains(&Point::new(5, 3)));
}

#[test]
fn astar_open_grid_diagonal() {
    let bounds = Rect::new(Point::new(0, 0), Point::new(5, 5));
    let walk = |p: Point| p.x >= 0 && p.x < 5 && p.y >= 0 && p.y < 5;
    let path = manhattan_a_star(Point::new(0, 0), Point::new(4, 4), bounds, &walk).unwrap();
    assert_eq!(path.len(), 5);
    assert_eq!(path[0], Point::new(4, 4));
    assert_eq!(path[4], Point::new(0, 0));
    for w in path.windows(2) {
        assert!((w[0].x - w[1].x).abs() <= 1 && (w[0].y - w[1].y).abs() <= 1);
    }
}

#[test]
fn astar_enclosed_goal_is_none() {
    let bounds = Rect::new(Point::new(-10, -10), Point::new(10, 10));
    let goal = Point::new(5, 5);
    let walk = |p: Point| {
        let near_goal = (p.x - goal.x).abs() <= 1 && (p.y - goal.y).abs() <= 1;
        p.x > -10 && p.x < 10 && p.y > -10 && p.y < 10 && (!near_goal || p == goal)
    };
    assert!(manhattan_a_star(Point::new(0, 0), goal, bounds, &walk).is_none());
}

#[test]
fn astar_start_is_goal() {
    let bounds = Rect::new(Point::new(0, 0), Point::new(1, 1));
    let path = manhattan_a_star(Point::new(7, 7), Point::new(7, 7), bounds, &|_| false).unwrap();
    assert_eq!(path, vec![Point::new(7, 7)]);
}

#[test]
fn astar_goes_around_a_wall() {
    let bounds = Rect::new(Point::new(0, 0), Point::new(7, 7));
    let walk = |p: Point| p.x >= 0 && p.x < 7 && p.y >= 0 && p.y < 7 && !(p.x == 3 && p.y < 6);
    let path = manhattan_a_star(Point::new(0, 0), Point::new(6, 0), bounds, &walk).unwrap();
    assert_eq!(path[0], Point::new(6, 0));
    assert_eq!(*path.last().unwrap(), Point::new(0, 0));
    assert!(path.contains(&Point::new(3, 6)));
    let distinct: HashSet<Point> = path.iter().cloned().collect();
    assert_eq!(distinct.len(), path.len());
}

#[test]
fn astar_generic_costs() {
    let bounds = Rect::new(Point::new(0, 0), Point::new(4, 1));
    let walk = |p: Point| p.y == 0 && p.x >= 0 && p.x < 4;
    let path = a_star(
        Point::new(0, 0),
        Point::new(3, 0),
        bounds,
        &walk,
        &|_a: Point, _b: Point| 1u64,
        &|_p: Point| 0u64,
    )
    .unwrap();
    assert_eq!(path, vec![Point::new(3, 0), Point::new(2, 0), Point::new(1, 0), Point::new(0, 0)]);
}

#[test]
fn manhattan_cost_values() {
    assert_eq!(manhattan_cost(Point::new(1, 2), Point::new(-3, 5)), 7);
    assert_eq!(manhattan_cost(Point::new(0, 0), Point::new(0, 0)), 0);
    assert_eq!(manhattan_cost(Point::new(i64::MIN, i64::MIN), Point::new(i64::MAX, i64::MAX)), u64::MAX);
}

#[test]
fn next_pos_walks_to_goal() {
    let floor = room_floor(0, 0, 12, 12);
    let goal = Point::new(9, 6);
    let mut pf = Pathfind { script: Vec::new(), goal: Some(goal), path: Vec::new() };
    let occupied = Vec::new();
    let mut pos = Point::new(2, 2);
    let mut visited = HashSet::new();
    visited.insert(pos);
    let mut dist = (goal.x - pos.x).abs() + (goal.y - pos.y).abs();
    loop {
        match pf.next_pos(pos, &floor, &occupied) {
            Some(n) => {
                let d = (goal.x - n.x).abs() + (goal.y - n.y).abs();
                assert!(d < dist);
                dist = d;
                assert!(visited.insert(n));
                pos = n;
            }
            None => break,
        }
    }
    assert_eq!(pos, goal);
    assert!(pf.goal.is_none());
}

#[test]
fn next_pos_unreachable_goal() {
    let floor = room_floor(0, 0, 6, 6);
    let mut pf = Pathfind { script: Vec::new(), goal: Some(Point::new(40, 40)), path: Vec::new() };
    assert_eq!(pf.next_pos(Point::new(2, 2), &floor, &Vec::new()), None);
    assert!(pf.goal.is_none());
    assert!(pf.path.is_empty());
}

#[test]
fn next_pos_without_goal() {
    let floor = room_floor(0, 0, 6, 6);
    let mut pf = Pathfind::new(Vec::new());
    assert_eq!(pf.next_pos(Point::new(2, 2), &floor, &Vec::new()), None);
}

#[test]
fn stepper_contested_cell() {
    let floor = room_floor(0, 0, 8, 6);
    let target = Point::new(3, 2);
    let agent = |x: i64| Actor { pos: Point::new(x, 2), player: false, tangible: true, fov: None };
    let mind = || Some(Pathfind { script: Vec::new(), goal: Some(target), path: Vec::new() });
    let mut world = World { actors: vec![agent(2), agent(4)], minds: vec![mind(), mind()] };
    pathfind(&mut world, &floor, TurnMode::Running);
    let on_target = world.actors.iter().filter(|a| a.pos == target).count();
    assert_eq!(on_target, 1);
    assert_eq!(world.actors[0].pos, target);
    let other = world.actors[1].pos;
    assert!(other == Point::new(4, 2) || ((other.x - 4).abs() <= 1 && (other.y - 2).abs() <= 1));
    assert_ne!(other, target);
}

#[test]
fn stepper_waits_for_turn() {
    let floor = room_floor(0, 0, 8, 6);
    let mut world = World {
        actors: vec![Actor { pos: Point::new(2, 2), player: false, tangible: true, fov: None }],
        minds: vec![Some(Pathfind { script: Vec::new(), goal: Some(Point::new(5, 2)), path: Vec::new() })],
    };
    pathfind(&mut world, &floor, TurnMode::Waiting);
    assert_eq!(world.actors[0].pos, Point::new(2, 2));
    pathfind(&mut world, &floor, TurnMode::Running);
    assert_eq!(world.actors[0].pos, Point::new(3, 2));
}

#[test]
fn chase_follows_visible_player() {
    let floor = room_floor(0, 0, 12, 8);
    let mut fov = Fov { range: Point::new(10, 10), visible: Vec::new(), seen: Vec::new() };
    fov.refresh(Point::new(2, 2), &floor);
    let player = Actor { pos: Point::new(6, 4), player: true, tangible: true, fov: None };
    let hunter = Actor { pos: Point::new(2, 2), player: false, tangible: true, fov: Some(fov) };
    let actors = vec![hunter, player];
    let mut chase = Chase::new();
    let goal = chase.generate_goal(actors[0].fov.as_ref(), &actors);
    assert_eq!(goal, Some(Point::new(6, 4)));
    assert_eq!(chase.target, Some(1));
    assert!(chase.run_always());
}

#[test]
fn chase_ignores_hidden_player() {
    let fov = Fov { range: Point::new(3, 3), visible: vec![Point::new(0, 0)], seen: Vec::new() };
    let actors = vec![Actor { pos: Point::new(9, 9), player: true, tangible: true, fov: None }];
    let mut chase = Chase { target: Some(0) };
    assert_eq!(chase.generate_goal(Some(&fov), &actors), None);
    assert_eq!(chase.target, None);
    assert_eq!(chase.generate_goal(None, &actors), Some(Point::new(9, 9)));
}

#[test]
fn wander_picks_room_point() {
    let mut floor = Floor::new();
    floor.add_room(Rect::new(Point::new(20, 20), Point::new(23, 22)));
    let mut w = Wander;
    for _ in 0..20 {
        let g = w.generate_goal(&floor).unwrap();
        assert!(g.x >= 20 && g.x < 23 && g.y >= 20 && g.y < 22, "{:?}", g);
    }
    assert_eq!(Wander.generate_goal(&Floor::new()), None);
}

#[test]
fn refresh_goal_priority() {
    let floor = room_floor(0, 0, 10, 10);
    let actors = vec![Actor { pos: Point::new(5, 5), player: true, tangible: true, fov: None }];
    let mut pf = Pathfind::new(vec![Tactic::Chase(Chase::new()), Tactic::Wander(Wander)]);
    pf.refresh_goal(None, &actors, &floor);
    assert_eq!(pf.goal, Some(Point::new(5, 5)));
    let mut sticky = Pathfind { script: vec![Tactic::Wander(Wander)], goal: Some(Point::new(1, 1)), path: vec![Point::new(1, 1)] };
    sticky.refresh_goal(None, &actors, &floor);
    assert_eq!(sticky.goal, Some(Point::new(1, 1)));
    assert_eq!(sticky.path, vec![Point::new(1, 1)]);
}

#[test]
fn fov_refresh_accumulates_seen() {
    let floor = room_floor(0, 0, 20, 20);
    let mut fov = Fov { range: Point::new(3, 3), visible: Vec::new(), seen: Vec::new() };
    fov.refresh(Point::new(4, 4), &floor);
    let first: HashSet<Point> = fov.visible.iter().cloned().collect();
    fov.refresh(Point::new(12, 12), &floor);
    let seen: HashSet<Point> = fov.seen.iter().cloned().collect();
    for p in first.iter().chain(fov.visible.iter()) {
        assert!(seen.contains(p));
    }
    assert!(!fov.visible.contains(&Point::new(4, 4)));
    assert!(seen.contains(&Point::new(4, 4)));
}

#[test]
fn end_turn_waits() {
    let mut mode = TurnMode::Running;
    end_turn(&mut mode);
    assert_eq!(mode, TurnMode::Waiting);
}

#[test]
fn rect_basics() {
    let r = Rect::new(Point::new(5, -1), Point::new(1, 3));
    assert_eq!(r.upper_left(), Point::new(1, -1));
    assert_eq!(r.lower_right(), Point::new(5, 3));
    assert_eq!(r.width(), 4);
    assert_eq!(r.height(), 4);
    assert_eq!(r.area(), 16);
    assert!(!r.is_empty());
    assert!(r.contains(Point::new(1, -1)));
    assert!(!r.contains(Point::new(5, 0)));
    assert!(r.boundary_contains(Point::new(4, 0)));
    assert!(!r.boundary_contains(Point::new(2, 1)));
    assert!(Rect::with_dims(0, 3).is_empty());
    assert_eq!(Rect::with_dims(-2, 3).lower_right(), Point::new(2, 3));
}

#[test]
fn rect_intersections() {
    let a = Rect::new(Point::new(0, 0), Point::new(4, 4));
    let b = Rect::new(Point::new(2, 1), Point::new(6, 3));
    assert_eq!(a.intersect(b), Some(Rect::new(Point::new(2, 1), Point::new(4, 3))));
    let c = Rect::new(Point::new(4, 0), Point::new(6, 2));
    assert_eq!(a.intersect(c), None);
}

#[test]
fn rect_points_row_major() {
    let r = Rect::new(Point::new(1, 1), Point::new(3, 3));
    assert_eq!(r.points(), vec![Point::new(1, 1), Point::new(2, 1), Point::new(1, 2), Point::new(2, 2)]);
    assert!(Rect::with_dims(0, 5).points().is_empty());
    let b: HashSet<Point> = Rect::new(Point::new(0, 0), Point::new(4, 3)).boundary().into_iter().collect();
    assert_eq!(b.len(), 10);
    assert!(!b.contains(&Point::new(1, 1)));
}

#[test]
fn point_arithmetic() {
    let p = Point::new(3, -4);
    assert_eq!(p.add(Point::new(1, 1)), Point::new(4, -3));
    assert_eq!(p.sub(Point::new(1, 1)), Point::new(2, -5));
    assert_eq!(p.mul(3), Point::new(9, -12));
    assert_eq!(p.neg(), Point::new(-3, 4));
    assert_eq!(p.manhattan(), 7);
    assert_eq!(p.dot(Point::new(2, 1)), 2);
    assert!(p.norm_at_most(5));
    assert!(!p.norm_at_most(4));
    assert_eq!(p.coords(), [3, -4]);
    assert_eq!(p.sort_coords(Point::new(1, 0)), (Point::new(1, -4), Point::new(3, 0)));
    assert!(Point::zero().is_zero());
    assert_eq!(Dir::all().len(), 8);
    assert_eq!(Dir::Sw.to_point(), Point::new(-1, 1));
}

#[test]
fn map_rooms_and_corridors() {
    let mut floor = Floor::new();
    floor.add_room(Rect::new(Point::new(-3, -3), Point::new(3, 3)));
    assert_eq!(floor.tile(Point::new(-3, 0)), Tile::Wall);
    assert_eq!(floor.tile(Point::new(0, 0)), Tile::Ground);
    assert_eq!(floor.tile(Point::new(3, 0)), Tile::Void);
    floor.add_horizontal(Point::new(0, 0), 6);
    assert_eq!(floor.tile(Point::new(2, 0)), Tile::Ground);
    assert_eq!(floor.tile(Point::new(5, 1)), Tile::Wall);
    assert_eq!(floor.tile(Point::new(6, 0)), Tile::Ground);
    assert_eq!(floor.tile(Point::new(7, 0)), Tile::Void);
    floor.add_vertical(Point::new(6, 0), -5);
    assert_eq!(floor.tile(Point::new(6, -5)), Tile::Ground);
    assert_eq!(floor.tile(Point::new(7, -3)), Tile::Wall);
    assert_eq!(floor.rooms().len(), 1);
    assert!(floor.is_ground(Point::new(6, -2)));
    assert!(!floor.is_ground(Point::new(100, 100)));
}

#[test]
fn map_chunks() {
    assert_eq!(normalize(Point::new(-1, 33)), Point::new(-32, 32));
    assert_eq!(normalize(Point::new(31, 0)), Point::new(0, 0));
    let mut floor = Floor::new();
    assert!(floor.chunk(Point::new(5, 5)).is_none());
    floor.add_room(Rect::new(Point::new(30, 30), Point::new(34, 34)));
    assert_eq!(floor.chunks.len(), 4);
    let c = floor.chunk(Point::new(33, 31)).unwrap();
    assert_eq!(c.pos, Point::new(32, 0));
    assert_eq!(c.rect(), Rect::new(Point::new(32, 0), Point::new(64, 32)));
    let b = floor.bounds();
    assert!(b.contains(Point::new(30, 30)) && b.contains(Point::new(33, 33)));
}

#[test]
fn fov_wall_blocks_at_many_ranges() {
    for k in 1..6i64 {
        for r in [10i64, 20, 40, 80].iter() {
            let (_, set) = lit_set(Point::new(0, 0), Point::new(*r, *r), &|p: Point| p.x == k);
            assert!(set.contains(&Point::new(k, 0)));
            assert!(set.iter().all(|p| p.x <= k), "wall at {} range {}", k, r);
        }
    }
}
