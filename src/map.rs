//! Dungeon floors: an unbounded grid of tiles stored in square chunks.
use crate::geo::pt;
use crate::geo::Point;
use crate::geo::Rect;
use crate::geo::COORD_MAX;
use vstd::prelude::*;

verus! {

/// Side of a square chunk of tiles.
pub const WIDTH: i64 = 32;

/// Number of tiles in a chunk.
pub const CHUNK_TILES: usize = 1024;

/// What stands on one cell of the grid. Later variants take precedence when
/// features overlap.
#[derive(Clone, Copy, PartialEq, Eq, Structural, PartialOrd, Ord, Debug, Hash)]
pub enum Tile {
    Void,
    Wall,
    Ground,
}

/// Precedence of a tile when features overlap.
pub open spec fn rank(t: Tile) -> int {
    match t {
        Tile::Void => 0,
        Tile::Wall => 1,
        Tile::Ground => 2,
    }
}

/// The tile of greater precedence.
pub open spec fn stronger(a: Tile, b: Tile) -> Tile {
    if rank(b) > rank(a) {
        b
    } else {
        a
    }
}

/// A point whose chunk the floor can hold.
pub open spec fn in_grid(p: Point) -> bool {
    -COORD_MAX <= p.x < COORD_MAX && -COORD_MAX <= p.y < COORD_MAX
}

/// The coordinate rounded down to a multiple of `WIDTH`.
pub open spec fn floor32(v: int) -> int {
    v - v % 32
}

/// The corner of the chunk that holds `p`.
pub open spec fn chunk_key(p: Point) -> Point {
    pt(floor32(p.x as int), floor32(p.y as int))
}

/// Where the tile of `p` stands inside its chunk.
pub open spec fn local_index(p: Point) -> int {
    (p.x % 32) + (p.y % 32) * 32
}

impl Tile {
    /// Precedence of this tile.
    fn precedence(self) -> (r: u8)
        ensures
            r == rank(self),
    {
        match self {
            Tile::Void => 0,
            Tile::Wall => 1,
            Tile::Ground => 2,
        }
    }
}

/// `v % 32`, rounded to a value in `0..32`.
fn mod32(v: i64) -> (r: i64)
    ensures
        r == v % 32,
        0 <= r < 32,
{
    let shifted: i128 = v as i128 + 18446744073709551616i128;
    let r = ((shifted as u128) % 32) as i64;
    proof {
        vstd::arithmetic::div_mod::lemma_mod_multiples_vanish(576460752303423488, v as int, 32);
        assert(32 * 576460752303423488 + v == shifted);
    }
    r
}

/// The corner of the chunk that holds `pos`.
pub fn normalize(pos: Point) -> (r: Point)
    requires
        in_grid(pos),
    ensures
        r == chunk_key(pos),
        in_grid(r),
        r.x % 32 == 0,
        r.y % 32 == 0,
        r.x <= pos.x < r.x + 32,
        r.y <= pos.y < r.y + 32,
        r.x + 32 <= COORD_MAX,
        r.y + 32 <= COORD_MAX,
{
    let mx = mod32(pos.x);
    let my = mod32(pos.y);
    let r = Point::new(pos.x - mx, pos.y - my);
    assert(r.x % 32 == 0 && r.y % 32 == 0) by {
        vstd::arithmetic::div_mod::lemma_fundamental_div_mod(pos.x as int, 32);
        vstd::arithmetic::div_mod::lemma_fundamental_div_mod(pos.y as int, 32);
        vstd::arithmetic::div_mod::lemma_mod_multiples_basic(pos.x as int / 32, 32);
        vstd::arithmetic::div_mod::lemma_mod_multiples_basic(pos.y as int / 32, 32);
    }
    assert(r.x + 32 <= COORD_MAX && r.y + 32 <= COORD_MAX) by {
        vstd::arithmetic::div_mod::lemma_fundamental_div_mod(pos.x as int, 32);
        vstd::arithmetic::div_mod::lemma_fundamental_div_mod(pos.y as int, 32);
        assert(COORD_MAX == 32 * 33554432);
    }
    r
}

/// A square block of `WIDTH` by `WIDTH` tiles whose upper-left corner is
/// `pos`, stored row by row.
pub struct Chunk {
    pub pos: Point,
    pub tiles: Vec<Tile>,
}

impl Chunk {
    /// The corner is a multiple of `WIDTH` inside the grid, and every tile is
    /// stored.
    pub open spec fn wf(&self) -> bool {
        &&& self.tiles@.len() == CHUNK_TILES
        &&& in_grid(self.pos)
        &&& self.pos.x % 32 == 0
        &&& self.pos.y % 32 == 0
        &&& self.pos.x + 32 <= COORD_MAX
        &&& self.pos.y + 32 <= COORD_MAX
    }

    /// A chunk of void tiles at `pos`.
    pub fn new(pos: Point) -> (r: Chunk)
        requires
            in_grid(pos),
            pos.x % 32 == 0,
            pos.y % 32 == 0,
        ensures
            r.wf(),
            r.pos == pos,
            forall|i: int| 0 <= i < CHUNK_TILES ==> r.tiles@[i] == Tile::Void,
    {
        assert(pos.x + 32 <= COORD_MAX && pos.y + 32 <= COORD_MAX) by {
            assert(COORD_MAX % 32 == 0);
        }
        let tiles = vec![Tile::Void; CHUNK_TILES];
        Chunk { pos, tiles }
    }

    /// The rectangle that this chunk covers.
    pub fn rect(&self) -> (r: Rect)
        requires
            self.wf(),
        ensures
            r.wf(),
            r.0 == self.pos,
            r.1 == pt(self.pos.x + 32, self.pos.y + 32),
    {
        Rect::new(self.pos, self.pos.add(Point::new(WIDTH, WIDTH)))
    }

    /// The tile at the place of `pos` within its chunk: coordinates count
    /// modulo `WIDTH`.
    pub fn tile(&self, pos: Point) -> (r: Tile)
        requires
            self.wf(),
        ensures
            r == self.tiles@[local_index(pos)],
    {
        let x = mod32(pos.x);
        let y = mod32(pos.y);
        self.tiles[(x + y * WIDTH) as usize]
    }

    /// The tile at the place of `pos` within its chunk, for writing:
    /// coordinates count modulo `WIDTH`.
    pub fn tile_mut(&mut self, pos: Point) -> (r: &mut Tile)
        requires
            old(self).wf(),
        ensures
            *r == old(self).tiles@[local_index(pos)],
            final(self).pos == old(self).pos,
            final(self).tiles@ == old(self).tiles@.update(local_index(pos), *final(r)),
    {
        let x = mod32(pos.x);
        let y = mod32(pos.y);
        &mut self.tiles[(x + y * WIDTH) as usize]
    }
}


/// A dungeon floor: the chunks that hold its tiles, and its rooms.
///
/// A point of no chunk holds `Tile::Void`.
pub struct Floor {
    pub chunks: Vec<Chunk>,
    pub rooms: Vec<Rect>,
}

impl Floor {
    /// Every chunk is well formed and no two share a corner; every room is a
    /// well-formed rectangle.
    pub open spec fn wf(&self) -> bool {
        &&& forall|i: int| 0 <= i < self.chunks@.len() ==> (#[trigger] self.chunks@[i]).wf()
        &&& forall|i: int, j: int|
            0 <= i < j < self.chunks@.len() ==> (#[trigger] self.chunks@[i]).pos
                != (#[trigger] self.chunks@[j]).pos
        &&& forall|i: int| 0 <= i < self.rooms@.len() ==> (#[trigger] self.rooms@[i]).wf()
    }

    /// Some chunk has its corner at `key`.
    pub open spec fn has_chunk(&self, key: Point) -> bool {
        exists|i: int| 0 <= i < self.chunks@.len() && (#[trigger] self.chunks@[i]).pos == key
    }

    /// The chunk with its corner at `key`, where there is one.
    pub open spec fn index_of(&self, key: Point) -> int {
        choose|i: int| 0 <= i < self.chunks@.len() && (#[trigger] self.chunks@[i]).pos == key
    }

    /// The tile at `p`.
    pub open spec fn tile_at(&self, p: Point) -> Tile {
        if in_grid(p) && self.has_chunk(chunk_key(p)) {
            self.chunks@[self.index_of(chunk_key(p))].tiles@[local_index(p)]
        } else {
            Tile::Void
        }
    }

    /// An empty floor: every point holds `Tile::Void`.
    pub fn new() -> (r: Floor)
        ensures
            r.wf(),
            r.rooms@.len() == 0,
            forall|p: Point| r.tile_at(p) == Tile::Void,
    {
        Floor { chunks: Vec::new(), rooms: Vec::new() }
    }

    fn find(&self, key: Point) -> (r: Option<usize>)
        requires
            self.wf(),
        ensures
            r is Some <==> self.has_chunk(key),
            r is Some ==> r->0 == self.index_of(key) && r->0 < self.chunks@.len(),
    {
        let mut i: usize = 0;
        while i < self.chunks.len()
            invariant
                self.wf(),
                i <= self.chunks@.len(),
                forall|j: int| 0 <= j < i ==> self.chunks@[j].pos != key,
            decreases self.chunks@.len() - i,
        {
            if self.chunks[i].pos == key {
                proof {
                    let k = self.index_of(key);
                    assert(self.chunks@[k].pos == key);
                    if k != i {
                        if k < i {
                            assert(self.chunks@[k].pos != self.chunks@[i as int].pos);
                        } else {
                            assert(self.chunks@[i as int].pos != self.chunks@[k].pos);
                        }
                    }
                }
                return Some(i);
            }
            i = i + 1;
        }
        None
    }

    /// The chunk that holds `pos`, if the floor has one.
    pub fn chunk(&self, pos: Point) -> (r: Option<&Chunk>)
        requires
            self.wf(),
            in_grid(pos),
        ensures
            r is Some <==> self.has_chunk(chunk_key(pos)),
            r is Some ==> *r->0 == self.chunks@[self.index_of(chunk_key(pos))],
    {
        match self.find(normalize(pos)) {
            Some(i) => Some(&self.chunks[i]),
            None => None,
        }
    }

    /// Whether `p` holds ground, the only tile that can be walked on.
    pub fn is_ground(&self, p: Point) -> (r: bool)
        requires
            self.wf(),
        ensures
            r == (self.tile_at(p) == Tile::Ground),
    {
        if !(-COORD_MAX <= p.x && p.x < COORD_MAX && -COORD_MAX <= p.y && p.y < COORD_MAX) {
            return false;
        }
        match self.chunk(p) {
            Some(c) => {
                let t = c.tile(p);
                t == Tile::Ground
            },
            None => false,
        }
    }

    /// The chunk that holds `pos`, for writing; a chunk of void tiles is
    /// added first where the floor has none.
    pub fn chunk_mut(&mut self, pos: Point) -> (r: &mut Chunk)
        requires
            old(self).wf(),
            in_grid(pos),
        ensures
            r.wf(),
            r.pos == chunk_key(pos),
            old(self).has_chunk(chunk_key(pos)) ==> *r == old(self).chunks@[old(self).index_of(
                chunk_key(pos),
            )] && final(self).chunks@ == old(self).chunks@.update(
                old(self).index_of(chunk_key(pos)),
                *final(r),
            ),
            !old(self).has_chunk(chunk_key(pos)) ==> (forall|i: int|
                0 <= i < CHUNK_TILES ==> r.tiles@[i] == Tile::Void) && final(self).chunks@ == old(
                self,
            ).chunks@.push(*final(r)),
            final(self).rooms@ == old(self).rooms@,
    {
        let key = normalize(pos);
        let i = match self.find(key) {
            Some(i) => i,
            None => {
                self.chunks.push(Chunk::new(key));
                self.chunks.len() - 1
            },
        };
        &mut self.chunks[i]
    }
}


/// Two points of one chunk with one local index are equal.
proof fn lemma_local_unique(p: Point, q: Point)
    requires
        in_grid(p),
        in_grid(q),
        chunk_key(p) == chunk_key(q),
        local_index(p) == local_index(q),
    ensures
        p == q,
{
    assert(0 <= p.x % 32 < 32 && 0 <= q.x % 32 < 32 && 0 <= p.y % 32 < 32 && 0 <= q.y % 32 < 32);
    assert(p.x % 32 == q.x % 32 && p.y % 32 == q.y % 32);
    assert(floor32(p.x as int) == floor32(q.x as int));
}

/// Storing `v` for `p` in the chunk that holds `p` changes the tile of `p`
/// alone.
proof fn lemma_store(before: Floor, after: Floor, p: Point, c: Chunk, v: Tile)
    requires
        before.wf(),
        in_grid(p),
        c.wf(),
        c.pos == chunk_key(p),
        before.has_chunk(chunk_key(p)) ==> c.tiles@ == before.chunks@[before.index_of(
            chunk_key(p),
        )].tiles@.update(local_index(p), v) && after.chunks@ == before.chunks@.update(
            before.index_of(chunk_key(p)),
            c,
        ),
        !before.has_chunk(chunk_key(p)) ==> (forall|i: int|
            0 <= i < CHUNK_TILES && i != local_index(p) ==> c.tiles@[i] == Tile::Void)
            && c.tiles@[local_index(p)] == v && after.chunks@ == before.chunks@.push(c),
        after.rooms@ == before.rooms@,
    ensures
        after.wf(),
        forall|q: Point|
            #[trigger] after.tile_at(q) == if q == p {
                v
            } else {
                before.tile_at(q)
            },
{
    let key = chunk_key(p);
    assert(0 <= local_index(p) < CHUNK_TILES);
    let k = if before.has_chunk(key) {
        before.index_of(key)
    } else {
        before.chunks@.len() as int
    };
    assert(after.chunks@[k] == c);
    assert(forall|i: int| 0 <= i < after.chunks@.len() && i != k ==> after.chunks@[i] == before.chunks@[i]);
    assert forall|i: int, j: int|
        0 <= i < j < after.chunks@.len() implies (#[trigger] after.chunks@[i]).pos
        != (#[trigger] after.chunks@[j]).pos by {
        if i != k && j != k {
            assert(before.chunks@[i].pos != before.chunks@[j].pos);
        } else if !before.has_chunk(key) {
            if i == k {
                assert(before.chunks@[j].pos != key);
            } else {
                assert(before.chunks@[i].pos != key);
            }
        }
    }
    assert(after.wf());
    assert forall|q: Point| #[trigger]
        after.tile_at(q) == if q == p {
            v
        } else {
            before.tile_at(q)
        } by {
        let kq = chunk_key(q);
        if in_grid(q) {
            if kq == key {
                assert(after.has_chunk(kq));
                let ia = after.index_of(kq);
                assert(ia == k);
                if q != p {
                    if local_index(q) == local_index(p) {
                        lemma_local_unique(p, q);
                    }
                    assert(0 <= local_index(q) < CHUNK_TILES);
                }
            } else {
                if before.has_chunk(kq) {
                    let ib = before.index_of(kq);
                    assert(after.chunks@[ib] == before.chunks@[ib]);
                    assert(after.has_chunk(kq));
                    let ia = after.index_of(kq);
                    if ia != ib {
                        if ia < ib {
                            assert(after.chunks@[ia].pos != after.chunks@[ib].pos);
                        } else {
                            assert(after.chunks@[ib].pos != after.chunks@[ia].pos);
                        }
                    }
                } else {
                    if after.has_chunk(kq) {
                        let ia = after.index_of(kq);
                        assert(ia != k);
                        assert(before.chunks@[ia].pos == kq);
                    }
                }
            }
        }
    }
}

impl Floor {
    /// Puts `t` at `p` unless `p` holds a tile of greater or equal
    /// precedence.
    fn raise(&mut self, p: Point, t: Tile)
        requires
            old(self).wf(),
            in_grid(p),
        ensures
            final(self).wf(),
            final(self).rooms@ == old(self).rooms@,
            forall|q: Point|
                #[trigger] final(self).tile_at(q) == if q == p {
                    stronger(old(self).tile_at(q), t)
                } else {
                    old(self).tile_at(q)
                },
    {
        let ghost before = *self;
        let ghost key = chunk_key(p);
        let ghost had = before.has_chunk(key);
        let c = self.chunk_mut(p);
        let ghost c0 = *c;
        let slot = c.tile_mut(p);
        let cur = *slot;
        if t.precedence() > cur.precedence() {
            *slot = t;
        }
        proof {
            let v = stronger(before.tile_at(p), t);
            if had {
                assert(before.tile_at(p) == c0.tiles@[local_index(p)]);
            } else {
                assert(before.tile_at(p) == Tile::Void);
                assert(0 <= local_index(p) < CHUNK_TILES);
            }
            lemma_store(before, *self, p, *c, v);
        }
    }
}


/// The tile that a room puts at its point `q`: wall on its boundary, ground
/// inside.
pub open spec fn room_tile(room: Rect, q: Point) -> Tile {
    if room.on_boundary(q) {
        Tile::Wall
    } else {
        Tile::Ground
    }
}

/// How far `q` lies along a corridor from `start` of length `len`.
pub open spec fn along(start: Point, len: int, vertical: bool, q: Point) -> int {
    let d = if vertical {
        q.y - start.y
    } else {
        q.x - start.x
    };
    if len >= 0 {
        d
    } else {
        -d
    }
}

/// How far `q` lies across a corridor through `start`.
pub open spec fn across(start: Point, vertical: bool, q: Point) -> int {
    if vertical {
        q.x - start.x
    } else {
        q.y - start.y
    }
}

/// `q` is a cell of the corridor from `start` of length `len`: its centre
/// line and the lines on either side.
pub open spec fn in_corridor(start: Point, len: int, vertical: bool, q: Point) -> bool {
    &&& 0 <= along(start, len, vertical, q) <= crate::geo::abs(len)
    &&& -1 <= across(start, vertical, q) <= 1
    &&& (len == 0 ==> along(start, len, vertical, q) == 0)
}

/// The tile that a corridor puts at its cell `q`: ground on the centre line,
/// wall beside it.
pub open spec fn corridor_tile(start: Point, vertical: bool, q: Point) -> Tile {
    if across(start, vertical, q) == 0 {
        Tile::Ground
    } else {
        Tile::Wall
    }
}

/// A corridor from `start` of length `len` stays inside the grid.
pub open spec fn corridor_fits(start: Point, len: int, vertical: bool) -> bool {
    let (a, c) = if vertical {
        (start.y as int, start.x as int)
    } else {
        (start.x as int, start.y as int)
    };
    &&& -COORD_MAX + 1 <= c <= COORD_MAX - 2
    &&& -COORD_MAX <= a < COORD_MAX
    &&& -COORD_MAX <= a + len < COORD_MAX
}

impl Floor {
    /// Adds a room: wall on the rectangle's boundary, ground inside, where
    /// the floor does not already hold a tile of greater precedence. The
    /// room joins the floor's rooms.
    pub fn add_room(&mut self, room: Rect)
        requires
            old(self).wf(),
            room.wf(),
        ensures
            final(self).wf(),
            final(self).rooms@ == old(self).rooms@.push(room),
            forall|q: Point|
                #[trigger] final(self).tile_at(q) == if room.has(q) {
                    stronger(old(self).tile_at(q), room_tile(room, q))
                } else {
                    old(self).tile_at(q)
                },
    {
        let ghost before = *self;
        let mut y = room.0.y;
        while y < room.1.y
            invariant
                self.wf(),
                room.wf(),
                room.0.y <= y <= room.1.y,
                self.rooms@ == before.rooms@,
                forall|q: Point|
                    #[trigger] self.tile_at(q) == if room.has(q) && q.y < y {
                        stronger(before.tile_at(q), room_tile(room, q))
                    } else {
                        before.tile_at(q)
                    },
            decreases room.1.y - y,
        {
            let mut x = room.0.x;
            while x < room.1.x
                invariant
                    self.wf(),
                    room.wf(),
                    room.0.y <= y < room.1.y,
                    room.0.x <= x <= room.1.x,
                    self.rooms@ == before.rooms@,
                    forall|q: Point|
                        #[trigger] self.tile_at(q) == if room.has(q) && (q.y < y || (q.y == y
                            && q.x < x)) {
                            stronger(before.tile_at(q), room_tile(room, q))
                        } else {
                            before.tile_at(q)
                        },
                decreases room.1.x - x,
            {
                let p = Point::new(x, y);
                let t = if room.boundary_contains(p) {
                    Tile::Wall
                } else {
                    Tile::Ground
                };
                self.raise(p, t);
                x = x + 1;
            }
            y = y + 1;
        }
        let ghost chunks_before = self.chunks@;
        let ghost mid = *self;
        self.rooms.push(room);
        proof {
            assert(self.chunks@ == chunks_before);
            assert forall|q: Point|
                #[trigger] self.tile_at(q) == if room.has(q) {
                    stronger(before.tile_at(q), room_tile(room, q))
                } else {
                    before.tile_at(q)
                } by {
                assert(mid.tile_at(q) == self.tile_at(q));
                if room.has(q) {
                    assert(q.y < y);
                }
            }
        }
    }

    /// Lays a corridor of `|len| + 1` cells from `start` along one axis
    /// (towards positive coordinates when `len > 0`): ground on its centre
    /// line and walls beside it, where the floor does not already hold a
    /// tile of greater precedence.
    fn carve(&mut self, start: Point, len: i64, vertical: bool)
        requires
            old(self).wf(),
            corridor_fits(start, len as int, vertical),
        ensures
            final(self).wf(),
            final(self).rooms@ == old(self).rooms@,
            forall|q: Point|
                #[trigger] final(self).tile_at(q) == if in_corridor(start, len as int, vertical, q) {
                    stronger(old(self).tile_at(q), corridor_tile(start, vertical, q))
                } else {
                    old(self).tile_at(q)
                },
    {
        let ghost before = *self;
        let n: i64 = if len < 0 {
            -len
        } else {
            len
        };
        let sign: i64 = if len > 0 {
            1
        } else if len < 0 {
            -1
        } else {
            0
        };
        let mut d: i64 = 0;
        while d <= n
            invariant
                self.wf(),
                corridor_fits(start, len as int, vertical),
                n == crate::geo::abs(len as int),
                sign == (if len > 0 { 1int } else if len < 0 { -1int } else { 0int }),
                0 <= d <= n + 1,
                self.rooms@ == before.rooms@,
                forall|q: Point|
                    #[trigger] self.tile_at(q) == if in_corridor(start, len as int, vertical, q)
                        && along(start, len as int, vertical, q) < d {
                        stronger(before.tile_at(q), corridor_tile(start, vertical, q))
                    } else {
                        before.tile_at(q)
                    },
            decreases n + 1 - d,
        {
            let mut c: i64 = -1;
            while c <= 1
                invariant
                    self.wf(),
                    corridor_fits(start, len as int, vertical),
                    n == crate::geo::abs(len as int),
                    sign == (if len > 0 { 1int } else if len < 0 { -1int } else { 0int }),
                    0 <= d <= n,
                    -1 <= c <= 2,
                    self.rooms@ == before.rooms@,
                    forall|q: Point|
                        #[trigger] self.tile_at(q) == if in_corridor(start, len as int, vertical, q)
                            && (along(start, len as int, vertical, q) < d || (along(
                            start,
                            len as int,
                            vertical,
                            q,
                        ) == d && across(start, vertical, q) < c)) {
                            stronger(before.tile_at(q), corridor_tile(start, vertical, q))
                        } else {
                            before.tile_at(q)
                        },
                decreases 2 - c,
            {
                assert(d * sign == (if len > 0 { d as int } else if len < 0 { -d } else { 0 }))
                    by (nonlinear_arith)
                    requires
                        sign == (if len > 0 { 1int } else if len < 0 { -1int } else { 0int }),
                ;
                let off = if vertical {
                    Point::new(c, d * sign)
                } else {
                    Point::new(d * sign, c)
                };
                let p = start.add(off);
                let t = if c == 0 {
                    Tile::Ground
                } else {
                    Tile::Wall
                };
                proof {
                    assert(along(start, len as int, vertical, p) == d);
                    assert(across(start, vertical, p) == c);
                    assert(in_corridor(start, len as int, vertical, p));
                    assert forall|q: Point|
                        in_corridor(start, len as int, vertical, q) && along(
                            start,
                            len as int,
                            vertical,
                            q,
                        ) == d && across(start, vertical, q) == c implies q == p by {}
                }
                self.raise(p, t);
                c = c + 1;
            }
            d = d + 1;
        }
    }

    /// Lays a horizontal corridor of `|len| + 1` cells from `start`: ground
    /// on its row and walls on the rows above and below.
    pub fn add_horizontal(&mut self, start: Point, len: i64)
        requires
            old(self).wf(),
            corridor_fits(start, len as int, false),
        ensures
            final(self).wf(),
            final(self).rooms@ == old(self).rooms@,
            forall|q: Point|
                #[trigger] final(self).tile_at(q) == if in_corridor(start, len as int, false, q) {
                    stronger(old(self).tile_at(q), corridor_tile(start, false, q))
                } else {
                    old(self).tile_at(q)
                },
    {
        self.carve(start, len, false)
    }

    /// Lays a vertical corridor of `|len| + 1` cells from `start`: ground on
    /// its column and walls on the columns left and right of it.
    pub fn add_vertical(&mut self, start: Point, len: i64)
        requires
            old(self).wf(),
            corridor_fits(start, len as int, true),
        ensures
            final(self).wf(),
            final(self).rooms@ == old(self).rooms@,
            forall|q: Point|
                #[trigger] final(self).tile_at(q) == if in_corridor(start, len as int, true, q) {
                    stronger(old(self).tile_at(q), corridor_tile(start, true, q))
                } else {
                    old(self).tile_at(q)
                },
    {
        self.carve(start, len, true)
    }

    /// The rooms of this floor.
    pub fn rooms(&self) -> (r: &Vec<Rect>)
        ensures
            r@ == self.rooms@,
    {
        &self.rooms
    }
}


impl Floor {
    /// A rectangle holding every chunk of the floor, and so every point that
    /// holds a tile other than `Tile::Void`.
    pub fn bounds(&self) -> (r: Rect)
        requires
            self.wf(),
        ensures
            r.wf(),
            forall|p: Point| #[trigger] self.tile_at(p) != Tile::Void ==> r.has(p),
    {
        if self.chunks.len() == 0 {
            return Rect(Point::zero(), Point::zero());
        }
        let mut lo = self.chunks[0].pos;
        let mut hi = self.chunks[0].pos;
        let mut i: usize = 1;
        while i < self.chunks.len()
            invariant
                self.wf(),
                1 <= i <= self.chunks@.len(),
                in_grid(lo),
                in_grid(hi),
                lo.x <= hi.x,
                lo.y <= hi.y,
                hi.x + 32 <= COORD_MAX,
                hi.y + 32 <= COORD_MAX,
                forall|j: int|
                    0 <= j < i ==> lo.x <= (#[trigger] self.chunks@[j]).pos.x <= hi.x && lo.y
                        <= self.chunks@[j].pos.y <= hi.y,
            decreases self.chunks@.len() - i,
        {
            let p = self.chunks[i].pos;
            proof {
                assert(self.chunks@[i as int].wf());
            }
            if p.x < lo.x {
                lo = Point::new(p.x, lo.y);
            }
            if p.y < lo.y {
                lo = Point::new(lo.x, p.y);
            }
            if p.x > hi.x {
                hi = Point::new(p.x, hi.y);
            }
            if p.y > hi.y {
                hi = Point::new(hi.x, p.y);
            }
            i = i + 1;
        }
        let r = Rect(lo, Point::new(hi.x + WIDTH, hi.y + WIDTH));
        proof {
            assert forall|p: Point| #[trigger] self.tile_at(p) != Tile::Void implies r.has(p) by {
                let key = chunk_key(p);
                let k = self.index_of(key);
                assert(self.chunks@[k].pos == key);
                assert(key.x <= p.x < key.x + 32) by {
                    vstd::arithmetic::div_mod::lemma_fundamental_div_mod(p.x as int, 32);
                }
                assert(key.y <= p.y < key.y + 32) by {
                    vstd::arithmetic::div_mod::lemma_fundamental_div_mod(p.y as int, 32);
                }
            }
        }
        r
    }
}


impl Floor {
    /// The tile at `p`.
    pub fn tile(&self, p: Point) -> (r: Tile)
        requires
            self.wf(),
        ensures
            r == self.tile_at(p),
    {
        if !(-COORD_MAX <= p.x && p.x < COORD_MAX && -COORD_MAX <= p.y && p.y < COORD_MAX) {
            return Tile::Void;
        }
        match self.chunk(p) {
            Some(c) => c.tile(p),
            None => Tile::Void,
        }
    }
}


/// Largest coordinate or size that a room draw may hold.
pub const DRAW_MAX: i64 = 16777216;

/// The chance outcomes behind one room of `Floor::rooms_and_corridors`.
#[derive(Clone, Copy, PartialEq, Eq, Structural, Debug)]
pub struct RoomDraw {
    /// Where the room is centred.
    pub center: Point,
    /// Its width and height.
    pub size: Point,
    /// The room is left without a corridor to the room before it.
    pub skip_corridor: bool,
    /// The corridor to the room before runs horizontally first.
    pub horizontal_first: bool,
}

/// The draw's values are small enough for every room and corridor to fit.
pub open spec fn draw_ok(d: RoomDraw) -> bool {
    -DRAW_MAX <= d.center.x <= DRAW_MAX && -DRAW_MAX <= d.center.y <= DRAW_MAX && -DRAW_MAX
        <= d.size.x <= DRAW_MAX && -DRAW_MAX <= d.size.y <= DRAW_MAX
}

/// A rectangle within twice `DRAW_MAX` of the origin.
pub open spec fn small(r: Rect) -> bool {
    r.wf() && -2 * DRAW_MAX <= r.0.x && r.1.x <= 2 * DRAW_MAX && -2 * DRAW_MAX <= r.0.y && r.1.y
        <= 2 * DRAW_MAX
}

/// The room that a draw describes.
pub open spec fn room_of(d: RoomDraw) -> Rect {
    let w = crate::geo::abs(d.size.x as int);
    let h = crate::geo::abs(d.size.y as int);
    let x0 = d.center.x - crate::geo::half(w);
    let y0 = d.center.y - crate::geo::half(h);
    Rect(pt(x0, y0), pt(x0 + w, y0 + h))
}

/// `r` is the room of one of the draws.
pub open spec fn drawn(r: Rect, draws: Seq<RoomDraw>) -> bool {
    exists|j: int| 0 <= j < draws.len() && r == room_of(draws[j])
}

/// Whether `room` shares a point with one of `rooms`.
fn overlaps_any(rooms: &Vec<Rect>, room: Rect) -> (r: bool)
    requires
        room.wf(),
        forall|i: int| 0 <= i < rooms@.len() ==> (#[trigger] rooms@[i]).wf(),
    ensures
        r == exists|i: int, p: Point|
            0 <= i < rooms@.len() && #[trigger] rooms@[i].has(p) && room.has(p),
{
    let mut i: usize = 0;
    while i < rooms.len()
        invariant
            room.wf(),
            forall|i: int| 0 <= i < rooms@.len() ==> (#[trigger] rooms@[i]).wf(),
            i <= rooms@.len(),
            forall|j: int, p: Point| 0 <= j < i && #[trigger] rooms@[j].has(p) ==> !room.has(p),
        decreases rooms@.len() - i,
    {
        if rooms[i].intersect(room).is_some() {
            return true;
        }
        i = i + 1;
    }
    false
}

impl Floor {
    /// Joins the centres of two rooms by a corridor with one bend, leaving
    /// from `prev` horizontally or vertically first.
    fn link(&mut self, prev: Rect, room: Rect, horizontal_first: bool)
        requires
            old(self).wf(),
            small(prev),
            small(room),
        ensures
            final(self).wf(),
            final(self).rooms@ == old(self).rooms@,
    {
        let pc = prev.center();
        let rc = room.center();
        if horizontal_first {
            self.add_horizontal(pc, rc.x - pc.x);
            self.add_vertical(rc, pc.y - rc.y);
        } else {
            self.add_vertical(pc, rc.y - pc.y);
            self.add_horizontal(rc, pc.x - rc.x);
        }
    }

    /// Lays out rooms joined by corridors, one draw per room in order.
    ///
    /// A room that shares a point with a room already kept is dropped.
    /// Otherwise it is added to the floor; unless it is the first kept room,
    /// a corridor with one bend joins its centre to the centre of the room
    /// kept before it, horizontal or vertical leg first as the draw says. A
    /// room drawn without a corridor is added to the floor but not kept, so
    /// it neither blocks later rooms nor receives their corridors.
    pub fn rooms_and_corridors(&mut self, draws: &Vec<RoomDraw>)
        requires
            old(self).wf(),
            forall|k: int| 0 <= k < draws@.len() ==> draw_ok(#[trigger] draws@[k]),
        ensures
            final(self).wf(),
            old(self).rooms@.len() <= final(self).rooms@.len() <= old(self).rooms@.len()
                + draws@.len(),
            forall|i: int|
                0 <= i < old(self).rooms@.len() ==> #[trigger] final(self).rooms@[i]
                    == old(self).rooms@[i],
            forall|i: int|
                old(self).rooms@.len() <= i < final(self).rooms@.len() ==> drawn(
                    #[trigger] final(self).rooms@[i],
                    draws@,
                ),
    {
        let ghost rooms0 = self.rooms@;
        let mut kept: Vec<Rect> = Vec::new();
        let mut k: usize = 0;
        while k < draws.len()
            invariant
                rooms0 == old(self).rooms@,
                self.wf(),
                forall|k: int| 0 <= k < draws@.len() ==> draw_ok(#[trigger] draws@[k]),
                k <= draws@.len(),
                rooms0.len() <= self.rooms@.len() <= rooms0.len() + k,
                forall|i: int| 0 <= i < rooms0.len() ==> #[trigger] self.rooms@[i] == rooms0[i],
                forall|i: int|
                    rooms0.len() <= i < self.rooms@.len() ==> drawn(#[trigger] self.rooms@[i], draws@),
                forall|i: int| 0 <= i < kept@.len() ==> small(#[trigger] kept@[i]),
            decreases draws@.len() - k,
        {
            let d = draws[k];
            let room = Rect::with_dims(d.size.x, d.size.y).centered_on(d.center);
            proof {
                assert(room == room_of(d));
                assert(small(room));
            }
            if !overlaps_any(&kept, room) {
                let ghost before = self.rooms@;
                self.add_room(room);
                proof {
                    assert forall|i: int|
                        rooms0.len() <= i < self.rooms@.len() implies drawn(#[trigger] self.rooms@[i], draws@) by {
                        if i == before.len() {
                            assert(self.rooms@[i] == room_of(draws@[k as int]));
                        } else {
                            assert(self.rooms@[i] == before[i]);
                        }
                    }
                    assert forall|i: int| 0 <= i < rooms0.len() implies #[trigger] self.rooms@[i] == rooms0[i] by {
                        assert(self.rooms@[i] == before[i]);
                    }
                }
                let linked = kept.len() > 0 && !d.skip_corridor;
                if kept.len() > 0 && d.skip_corridor {
                    // Added to the floor but not kept.
                } else {
                    if linked {
                        let prev = kept[kept.len() - 1];
                        self.link(prev, room, d.horizontal_first);
                    }
                    kept.push(room);
                }
            }
            k = k + 1;
        }
    }
}


/// Two points of one cell of the tiling by chunks have one chunk corner.
proof fn lemma_cell_key(p: Point, q: Point)
    requires
        crate::geo::cell_of(Rect(pt(0, 0), pt(32, 32)), p) == crate::geo::cell_of(
            Rect(pt(0, 0), pt(32, 32)),
            q,
        ),
    ensures
        chunk_key(p) == chunk_key(q),
{
    vstd::arithmetic::div_mod::lemma_fundamental_div_mod(p.x as int, 32);
    vstd::arithmetic::div_mod::lemma_fundamental_div_mod(q.x as int, 32);
    vstd::arithmetic::div_mod::lemma_fundamental_div_mod(p.y as int, 32);
    vstd::arithmetic::div_mod::lemma_fundamental_div_mod(q.y as int, 32);
}

impl Floor {
    /// The parts of `rect` that fall in chunks of the floor, each with its
    /// chunk, in row-major order of the chunks.
    pub fn chunks_in(&self, rect: Rect) -> (r: Vec<(Rect, &Chunk)>)
        requires
            self.wf(),
            rect.wf(),
        ensures
            forall|k: int|
                0 <= k < r@.len() ==> (#[trigger] r@[k]).0.wf() && r@[k].0.0.x < r@[k].0.1.x
                    && r@[k].0.0.y < r@[k].0.1.y && self.has_chunk(r@[k].1.pos) && *r@[k].1
                    == self.chunks@[self.index_of(r@[k].1.pos)],
            forall|k: int, p: Point|
                0 <= k < r@.len() && #[trigger] r@[k].0.has(p) ==> rect.has(p) && chunk_key(p)
                    == r@[k].1.pos,
            forall|p: Point|
                rect.has(p) && self.has_chunk(chunk_key(p)) ==> exists|k: int|
                    0 <= k < r@.len() && #[trigger] r@[k].0.has(p),
    {
        let tile = Rect::with_dims(WIDTH, WIDTH);
        let parts = rect.disect(tile);
        let mut out: Vec<(Rect, &Chunk)> = Vec::new();
        let mut i: usize = 0;
        while i < parts.len()
            invariant
                self.wf(),
                rect.wf(),
                tile == Rect(pt(0, 0), pt(32, 32)),
                i <= parts@.len(),
                forall|k: int|
                    0 <= k < parts@.len() ==> (#[trigger] parts@[k]).wf() && parts@[k].0.x
                        < parts@[k].1.x && parts@[k].0.y < parts@[k].1.y,
                forall|k: int, p: Point| 0 <= k < parts@.len() && #[trigger] parts@[k].has(p) ==> rect.has(p),
                forall|k: int, p: Point, q: Point|
                    0 <= k < parts@.len() && #[trigger] parts@[k].has(p) && #[trigger] parts@[k].has(q)
                        ==> crate::geo::cell_of(tile, p) == crate::geo::cell_of(tile, q),
                forall|p: Point| rect.has(p) ==> exists|k: int| 0 <= k < parts@.len() && #[trigger] parts@[k].has(p),
                forall|k: int|
                    0 <= k < out@.len() ==> (#[trigger] out@[k]).0.wf() && out@[k].0.0.x < out@[k].0.1.x
                        && out@[k].0.0.y < out@[k].0.1.y && self.has_chunk(out@[k].1.pos) && *out@[k].1
                        == self.chunks@[self.index_of(out@[k].1.pos)],
                forall|k: int, p: Point|
                    0 <= k < out@.len() && #[trigger] out@[k].0.has(p) ==> rect.has(p) && chunk_key(p)
                        == out@[k].1.pos,
                forall|p: Point|
                    rect.has(p) && self.has_chunk(chunk_key(p)) && (exists|k: int|
                        0 <= k < i && #[trigger] parts@[k].has(p)) ==> exists|k: int|
                        0 <= k < out@.len() && #[trigger] out@[k].0.has(p),
            decreases parts@.len() - i,
        {
            let part = parts[i];
            let corner = part.0;
            proof {
                assert(part.has(corner));
            }
            let ghost before = out@;
            match self.chunk(corner) {
                Some(c) => {
                    out.push((part, c));
                    proof {
                        let key = chunk_key(corner);
                        assert(c.pos == key) by {
                            assert(self.chunks@[self.index_of(key)].pos == key);
                        }
                        assert forall|p: Point| #[trigger] part.has(p) implies chunk_key(p) == key by {
                            lemma_cell_key(p, corner);
                        }
                        assert forall|k: int, p: Point|
                            0 <= k < out@.len() && #[trigger] out@[k].0.has(p) implies rect.has(p)
                                && chunk_key(p) == out@[k].1.pos by {
                            if k < before.len() {
                                assert(out@[k] == before[k]);
                            } else {
                                assert(parts@[i as int].has(p));
                            }
                        }
                    }
                },
                None => {
                    proof {
                        assert forall|p: Point| #[trigger] part.has(p) implies !self.has_chunk(chunk_key(p)) by {
                            lemma_cell_key(p, corner);
                        }
                    }
                },
            }
            proof {
                assert forall|p: Point|
                    rect.has(p) && self.has_chunk(chunk_key(p)) && (exists|k: int|
                        0 <= k < i + 1 && #[trigger] parts@[k].has(p)) implies exists|k: int|
                    0 <= k < out@.len() && #[trigger] out@[k].0.has(p) by {
                    let k = choose|k: int| 0 <= k < i + 1 && #[trigger] parts@[k].has(p);
                    if k < i {
                        let m = choose|m: int| 0 <= m < before.len() && #[trigger] before[m].0.has(p);
                        assert(out@[m] == before[m]);
                    } else {
                        assert(out@[before.len() as int].0 == part);
                    }
                }
            }
            i = i + 1;
        }
        out
    }
}

} // verus!
