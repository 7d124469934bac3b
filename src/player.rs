//! The player's moves, from the keys pressed this frame.
use crate::ai::ground;
use crate::ai::TurnMode;
use crate::geo::Dir;
use crate::geo::Point;
use crate::map::Floor;
use vstd::prelude::*;

verus! {

/// The key that steps towards `d`: WASD and the keys around them on a
/// QWERTY keyboard.
pub open spec fn key_of(d: Dir) -> char {
    match d {
        Dir::N => 'w',
        Dir::W => 'a',
        Dir::S => 's',
        Dir::E => 'd',
        Dir::Nw => 'q',
        Dir::Ne => 'e',
        Dir::Sw => 'z',
        Dir::Se => 'c',
    }
}

/// The key that steps towards `d`.
pub fn dir_char(d: Dir) -> (r: char)
    ensures
        r == key_of(d),
{
    match d {
        Dir::N => 'w',
        Dir::W => 'a',
        Dir::S => 's',
        Dir::E => 'd',
        Dir::Nw => 'q',
        Dir::Ne => 'e',
        Dir::Sw => 'z',
        Dir::Se => 'c',
    }
}

/// The key that waits a turn.
pub const WAIT_KEY: char = 'x';

/// The point one step from `p` towards `d`.
pub open spec fn stepped(p: Point, d: Dir) -> Point {
    crate::geo::pt(p.x + d.offset().x, p.y + d.offset().y)
}

/// The `k`-th direction of the fixed order is pressed.
pub open spec fn pressed(keys: Seq<char>, k: int) -> bool {
    keys.contains(key_of(Dir::all_spec()[k]))
}

/// The `k`-th direction is pressed and its step lands on ground.
pub open spec fn open_step(keys: Seq<char>, floor: &Floor, pos: Point, k: int) -> bool {
    pressed(keys, k) && ground(floor, stepped(pos, Dir::all_spec()[k]))
}

fn has_key(keys: &Vec<char>, c: char) -> (r: bool)
    ensures
        r == keys@.contains(c),
{
    let mut i: usize = 0;
    while i < keys.len()
        invariant
            i <= keys@.len(),
            forall|j: int| 0 <= j < i ==> keys@[j] != c,
        decreases keys@.len() - i,
    {
        if keys[i] == c {
            assert(keys@[i as int] == c);
            return true;
        }
        i = i + 1;
    }
    false
}

/// Moves the player for the keys pressed this frame.
///
/// The directions are tried in the order of `Dir::all`; the first pressed
/// one turns the player. With shift held the player only turns. Otherwise
/// a step onto anything but ground is skipped and the next pressed
/// direction is tried; the first step onto ground is taken and lets the
/// agents run. With no step taken and shift not held, the wait key lets the
/// agents run too.
pub fn player_movement(
    pos: &mut Point,
    dir: &mut Dir,
    keys: &Vec<char>,
    shifted: bool,
    floor: &Floor,
    mode: &mut TurnMode,
)
    requires
        floor.wf(),
        old(pos).bounded(),
    ensures
        shifted ==> *final(pos) == *old(pos) && *final(mode) == *old(mode),
        shifted && (exists|k: int| 0 <= k < 8 && pressed(keys@, k)) ==> exists|k: int|
            0 <= k < 8 && pressed(keys@, k) && *final(dir) == Dir::all_spec()[k] && forall|j: int|
                0 <= j < k ==> !pressed(keys@, j),
        !shifted && (exists|k: int| 0 <= k < 8 && open_step(keys@, floor, *old(pos), k)) ==> exists|k: int|
            0 <= k < 8 && open_step(keys@, floor, *old(pos), k) && (forall|j: int|
                0 <= j < k ==> !open_step(keys@, floor, *old(pos), j)) && *final(dir)
                == Dir::all_spec()[k] && *final(pos) == stepped(*old(pos), Dir::all_spec()[k])
                && *final(mode) == TurnMode::Running,
        !shifted && !(exists|k: int| 0 <= k < 8 && open_step(keys@, floor, *old(pos), k)) ==> *final(pos)
            == *old(pos) && *final(mode) == (if keys@.contains(WAIT_KEY) {
            TurnMode::Running
        } else {
            *old(mode)
        }),
        !(exists|k: int| 0 <= k < 8 && pressed(keys@, k)) ==> *final(dir) == *old(dir),
{
    let dirs = Dir::all();
    let mut k: usize = 0;
    while k < 8
        invariant
            floor.wf(),
            dirs@ == Dir::all_spec(),
            k <= 8,
            *pos == *old(pos),
            *mode == *old(mode),
            pos.bounded(),
            shifted ==> forall|j: int| 0 <= j < k ==> !pressed(keys@, j),
            !shifted ==> forall|j: int| 0 <= j < k ==> !open_step(keys@, floor, *old(pos), j),
            (exists|j: int| 0 <= j < k && pressed(keys@, j)) ==> exists|j: int|
                0 <= j < k && pressed(keys@, j) && *dir == Dir::all_spec()[j],
            !(exists|j: int| 0 <= j < k && pressed(keys@, j)) ==> *dir == *old(dir),
        decreases 8 - k,
    {
        let d = dirs[k];
        let hit = has_key(keys, dir_char(d));
        proof {
            assert(d == Dir::all_spec()[k as int]);
            assert(hit == pressed(keys@, k as int));
        }
        if hit {
            *dir = d;
            if shifted {
                return;
            }
            let new_pos = pos.add(d.to_point());
            let open = floor.is_ground(new_pos);
            proof {
                assert(new_pos == stepped(*old(pos), d));
                assert(open == open_step(keys@, floor, *old(pos), k as int));
            }
            if open {
                *pos = new_pos;
                *mode = TurnMode::Running;
                return;
            }
        }
        proof {
            if exists|j: int| 0 <= j < k + 1 && pressed(keys@, j) {
                if !(exists|j: int| 0 <= j < k && pressed(keys@, j)) {
                    assert(pressed(keys@, k as int));
                }
            }
        }
        k = k + 1;
    }
    if !shifted && has_key(keys, WAIT_KEY) {
        *mode = TurnMode::Running;
    }
}

} // verus!
