use dungeon::ai::{pathfind, Actor, Chase, Fov, Pathfind, Tactic, TurnMode, World};
use dungeon::fov::milazzo;
use dungeon::geo::{Dir, Point, Rect, RectVec};
use dungeon::map::{Floor, RoomDraw, Tile};
use dungeon::player::{dir_char, player_movement};

fn draw(cx: i64, cy: i64, w: i64, h: i64, skip: bool, horizontal: bool) -> RoomDraw {
    RoomDraw { center: Point::new(cx, cy), size: Point::new(w, h), skip_corridor: skip, horizontal_first: horizontal }
}

#[test]
fn rect_center_and_centering() {
    let r = Rect::new(Point::new(-3, 2), Point::new(4, 8));
    assert_eq!(r.center(), Point::new(-1 + 2, 1 + 4));
    let moved = Rect::with_dims(6, 5).centered_on(Point::new(10, 10));
    assert_eq!(moved, Rect::new(Point::new(7, 8), Point::new(13, 13)));
    let z = Rect::with_dims(200, 200).centered_on(Point::zero());
    assert_eq!(z.corners(), (Point::new(-100, -100), Point::new(100, 100)));
}

#[test]
fn generation_links_rooms() {
    let mut floor = Floor::new();
    let draws = vec![draw(0, 0, 6, 6, false, true), draw(20, 10, 6, 6, false, true)];
    floor.rooms_and_corridors(&draws);
    assert_eq!(floor.rooms().len(), 2);
    // The corridor leaves the first centre horizontally, then turns.
    assert_eq!(floor.tile(Point::new(10, 0)), Tile::Ground);
    assert_eq!(floor.tile(Point::new(10, 1)), Tile::Wall);
    assert_eq!(floor.tile(Point::new(19, 5)), Tile::Ground);
    assert_eq!(floor.tile(Point::new(20, 5)), Tile::Wall);
}

#[test]
fn generation_drops_overlaps() {
    let mut floor = Floor::new();
    let draws = vec![draw(0, 0, 10, 10, false, false), draw(2, 2, 10, 10, false, false), draw(40, 0, 4, 4, true, false)];
    floor.rooms_and_corridors(&draws);
    assert_eq!(floor.rooms().len(), 2);
    assert_eq!(floor.rooms()[1], Rect::new(Point::new(38, -2), Point::new(42, 2)));
    // No corridor to the skipped room.
    assert_eq!(floor.tile(Point::new(20, 0)), Tile::Void);
}

#[test]
fn rectvec_get_and_set() {
    let rect = Rect::new(Point::new(-1, -1), Point::new(2, 1));
    let mut v = RectVec::new(rect, 7u8);
    assert_eq!(v.dims(), rect);
    assert_eq!(v.data().len(), 6);
    assert_eq!(v.get(Point::new(0, 0)), Some(&7));
    assert_eq!(v.get(Point::new(2, 0)), None);
    assert!(v.set(Point::new(1, 0), 9));
    assert!(!v.set(Point::new(5, 5), 9));
    assert_eq!(v.data()[5], 9);
    let pts = v.points();
    assert_eq!(pts[0], (Point::new(-1, -1), 7));
    assert_eq!(pts[5], (Point::new(1, 0), 9));
    v.resize(Rect::new(Point::new(0, 0), Point::new(3, 2)), 1);
    assert!(v.data().iter().all(|&x| x == 1));
    v.resize(Rect::with_dims(1, 1), 4);
    assert_eq!(v.data(), &[4]);
    let e: RectVec<u8> = RectVec::empty();
    assert!(e.data().is_empty());
}

#[test]
fn player_steps_and_turns() {
    let mut floor = Floor::new();
    floor.add_room(Rect::new(Point::new(0, 0), Point::new(5, 5)));
    let mut pos = Point::new(1, 1);
    let mut dir = Dir::S;
    let mut mode = TurnMode::Waiting;
    player_movement(&mut pos, &mut dir, &vec!['d'], false, &floor, &mut mode);
    assert_eq!((pos, dir, mode), (Point::new(2, 1), Dir::E, TurnMode::Running));
    let mut mode = TurnMode::Waiting;
    player_movement(&mut pos, &mut dir, &vec!['w'], false, &floor, &mut mode);
    assert_eq!((pos, dir, mode), (Point::new(2, 1), Dir::N, TurnMode::Waiting));
    player_movement(&mut pos, &mut dir, &vec!['s'], true, &floor, &mut mode);
    assert_eq!((pos, dir, mode), (Point::new(2, 1), Dir::S, TurnMode::Waiting));
    player_movement(&mut pos, &mut dir, &vec!['x'], false, &floor, &mut mode);
    assert_eq!((pos, mode), (Point::new(2, 1), TurnMode::Running));
    assert_eq!(dir_char(Dir::Sw), 'z');
}

#[test]
fn disect_cuts_along_tiles() {
    let r = Rect::new(Point::new(-3, 1), Point::new(5, 4));
    let parts = r.disect(Rect::with_dims(4, 2));
    assert_eq!(
        parts,
        vec![
            Rect::new(Point::new(-3, 1), Point::new(0, 2)),
            Rect::new(Point::new(0, 1), Point::new(4, 2)),
            Rect::new(Point::new(4, 1), Point::new(5, 2)),
            Rect::new(Point::new(-3, 2), Point::new(0, 4)),
            Rect::new(Point::new(0, 2), Point::new(4, 4)),
            Rect::new(Point::new(4, 2), Point::new(5, 4)),
        ]
    );
    let area: i64 = parts.iter().map(|p| p.area()).sum();
    assert_eq!(area, r.area());
    assert!(Rect::with_dims(0, 7).disect(Rect::with_dims(2, 2)).is_empty());
}

#[test]
fn chunks_in_pairs_parts_with_chunks() {
    let mut floor = Floor::new();
    floor.add_room(Rect::new(Point::new(-2, -2), Point::new(2, 2)));
    let found = floor.chunks_in(Rect::new(Point::new(-40, -5), Point::new(40, 5)));
    assert_eq!(found.len(), 4);
    for (part, chunk) in &found {
        assert!(chunk.rect().intersect(*part) == Some(*part));
    }
    assert_eq!(found[0].0, Rect::new(Point::new(-32, -5), Point::new(0, 0)));
}

#[test]
fn fov_room_walls_outside_view() {
    let mut floor = Floor::new();
    floor.add_room(Rect::new(Point::new(-20, -20), Point::new(21, 21)));
    let mut fov = Fov { range: Point::new(6, 4), visible: Vec::new(), seen: Vec::new() };
    fov.refresh(Point::new(0, 0), &floor);
    for y in -4..=4i64 {
        for x in -6..=6i64 {
            let inside = x * x * 16 + y * y * 36 < 36 * 16;
            assert_eq!(fov.visible.contains(&Point::new(x, y)), inside, "{:?}", (x, y));
        }
    }
}

#[test]
fn fov_open_room_equals_ellipse() {
    let mut lit = Vec::new();
    // Opaque everywhere outside a box that holds the whole ellipse.
    milazzo(Point::new(1, 1), Point::new(3, 2), &|p: Point| p.x.abs() > 6 || p.y.abs() > 6, &mut lit);
    let mut count = 0;
    for y in -5..=7i64 {
        for x in -5..=7i64 {
            let (dx, dy) = (x - 1, y - 1);
            if dx * dx * 4 + dy * dy * 9 < 36 {
                count += 1;
                assert!(lit.contains(&Point::new(x, y)));
            }
        }
    }
    let distinct: std::collections::HashSet<Point> = lit.iter().cloned().collect();
    assert_eq!(distinct.len(), count);
}

#[test]
fn stepper_reports_steps() {
    let mut floor = Floor::new();
    floor.add_room(Rect::new(Point::new(0, 0), Point::new(8, 6)));
    let target = Point::new(3, 2);
    let agent = |x: i64| Actor { pos: Point::new(x, 2), player: false, tangible: true, fov: None };
    let mind = || Some(Pathfind { script: Vec::new(), goal: Some(target), path: Vec::new() });
    let mut world = World { actors: vec![agent(2), agent(4), agent(6)], minds: vec![mind(), mind(), None] };
    let steps = pathfind(&mut world, &floor, TurnMode::Running);
    assert_eq!(steps, vec![Some(target), Some(target), None]);
    assert_eq!(world.actors[0].pos, target);
    assert_eq!(world.actors[1].pos, Point::new(4, 2));
    assert_eq!(world.actors[2].pos, Point::new(6, 2));
    let steps = pathfind(&mut world, &floor, TurnMode::Waiting);
    assert!(steps.is_empty());
}

#[test]
fn chunk_tile_wraps_any_point() {
    let mut floor = Floor::new();
    floor.add_room(Rect::new(Point::new(-3, -3), Point::new(3, 3)));
    let c = floor.chunk(Point::new(-1, -1)).unwrap();
    assert_eq!(c.tile(Point::new(-1, -1)), Tile::Ground);
    assert_eq!(c.tile(Point::new(31 - 64, 31)), Tile::Ground);
    assert_eq!(c.tile(Point::new(i64::MIN + 31, i64::MAX)), Tile::Ground);
}

#[test]
fn rect_boundary_counts() {
    let r = Rect::new(Point::new(2, 5), Point::new(7, 9));
    let b = r.boundary();
    assert_eq!(b.len(), 2 * 5 + 2 * 4 - 4);
    let set: std::collections::HashSet<Point> = b.iter().cloned().collect();
    assert_eq!(set.len(), b.len());
}

#[test]
fn fov_all_opaque_lights_neighbours() {
    let mut lit = Vec::new();
    milazzo(Point::new(0, 0), Point::new(4, 4), &|_p: Point| true, &mut lit);
    let set: std::collections::HashSet<Point> = lit.iter().cloned().collect();
    let mut expected = std::collections::HashSet::new();
    for y in -1..=1i64 {
        for x in -1..=1i64 {
            expected.insert(Point::new(x, y));
        }
    }
    assert_eq!(set, expected);
    let mut lit = Vec::new();
    milazzo(Point::new(5, 5), Point::new(1, 1), &|_p: Point| true, &mut lit);
    assert_eq!(lit, vec![Point::new(5, 5)]);
}

#[test]
fn staircase_is_cheapest() {
    let bounds = Rect::new(Point::new(-10, -10), Point::new(10, 10));
    let walk = |p: Point| p.x.abs() < 10 && p.y.abs() < 10;
    let path = dungeon::graph::manhattan_a_star(Point::new(3, -2), Point::new(-4, 5), bounds, &walk).unwrap();
    assert_eq!(path.len(), 8);
    let cost: i64 = path.windows(2).map(|w| (w[0].x - w[1].x).abs() + (w[0].y - w[1].y).abs()).sum();
    assert_eq!(cost, 14);
    for w in path.windows(2) {
        let d0 = (w[0].x + 4).abs() + (w[0].y - 5).abs();
        let d1 = (w[1].x + 4).abs() + (w[1].y - 5).abs();
        assert!(d0 < d1);
    }
}

#[test]
fn refresh_goal_takes_first_visible_player() {
    let mut floor = Floor::new();
    floor.add_room(Rect::new(Point::new(0, 0), Point::new(10, 10)));
    let actors = vec![
        Actor { pos: Point::new(2, 2), player: true, tangible: true, fov: None },
        Actor { pos: Point::new(7, 7), player: true, tangible: true, fov: None },
    ];
    let mut pf = Pathfind { script: vec![Tactic::Chase(Chase { target: Some(1) })], goal: Some(Point::new(1, 1)), path: Vec::new() };
    pf.refresh_goal(None, &actors, &floor);
    assert_eq!(pf.goal, Some(Point::new(7, 7)));
    let moved = vec![Actor { pos: Point::new(2, 2), player: true, tangible: true, fov: None }, Actor { pos: Point::new(8, 7), player: true, tangible: true, fov: None }];
    pf.refresh_goal(None, &moved, &floor);
    assert_eq!(pf.goal, Some(Point::new(8, 7)));
}

#[test]
fn refresh_keeps_views_without_repeats() {
    let mut floor = Floor::new();
    floor.add_room(Rect::new(Point::new(-10, -10), Point::new(10, 10)));
    let mut fov = Fov { range: Point::new(5, 5), visible: Vec::new(), seen: Vec::new() };
    fov.refresh(Point::new(0, 0), &floor);
    fov.refresh(Point::new(1, 0), &floor);
    let v: std::collections::HashSet<Point> = fov.visible.iter().cloned().collect();
    let s: std::collections::HashSet<Point> = fov.seen.iter().cloned().collect();
    assert_eq!(v.len(), fov.visible.len());
    assert_eq!(s.len(), fov.seen.len());
}
