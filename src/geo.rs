//! Integer plane geometry: points, compass directions and rectangles.
use vstd::prelude::*;

verus! {

/// Largest magnitude of a coordinate that the geometry operations accept.
///
/// Keeping coordinates within this bound leaves every sum, difference and
/// area of the library well inside `i64`.
pub const COORD_MAX: i64 = 1073741824;

/// A direction on the plane (x grows to the right, y grows downwards).
#[derive(Clone, Copy, PartialEq, Eq, Structural, Debug, Hash)]
pub enum Direction {
    Up,
    Down,
    Left,
    Right,
}

/// One of the eight compass directions of a grid step.
#[derive(Clone, Copy, PartialEq, Eq, Structural, Debug, Hash)]
pub enum Dir {
    N,
    S,
    E,
    W,
    Ne,
    Nw,
    Se,
    Sw,
}

/// A point of the integer plane.
#[derive(Clone, Copy, PartialEq, Eq, Structural, PartialOrd, Ord, Debug, Hash)]
pub struct Point {
    pub x: i64,
    pub y: i64,
}

/// A point with integer coordinates, as a mathematical value.
pub open spec fn pt(x: int, y: int) -> Point {
    Point { x: x as i64, y: y as i64 }
}

/// Absolute value of an integer.
pub open spec fn abs(v: int) -> int {
    if v < 0 {
        -v
    } else {
        v
    }
}

/// Manhattan distance between two points.
pub open spec fn manhattan_dist(a: Point, b: Point) -> int {
    abs(a.x - b.x) + abs(a.y - b.y)
}

/// `a` and `b` are distinct points one king's move apart.
pub open spec fn adjacent(a: Point, b: Point) -> bool {
    a != b && abs(a.x - b.x) <= 1 && abs(a.y - b.y) <= 1
}

impl Point {
    /// Both coordinates lie within `COORD_MAX` of zero.
    pub open spec fn bounded(self) -> bool {
        -COORD_MAX <= self.x <= COORD_MAX && -COORD_MAX <= self.y <= COORD_MAX
    }

    /// Creates a point from its coordinates.
    pub fn new(x: i64, y: i64) -> (r: Point)
        ensures
            r.x == x,
            r.y == y,
    {
        Point { x, y }
    }

    /// The origin.
    pub fn zero() -> (r: Point)
        ensures
            r.x == 0,
            r.y == 0,
    {
        Point { x: 0, y: 0 }
    }

    /// Whether this is the origin.
    pub fn is_zero(self) -> (r: bool)
        ensures
            r == (self.x == 0 && self.y == 0),
    {
        self.x == 0 && self.y == 0
    }

    /// The coordinates as an array `[x, y]`.
    pub fn coords(self) -> (r: [i64; 2])
        ensures
            r@ == seq![self.x, self.y],
    {
        let r = [self.x, self.y];
        assert(r@ =~= seq![self.x, self.y]);
        r
    }

    /// The `x` coordinate.
    pub fn x(self) -> (r: i64)
        ensures
            r == self.x,
    {
        self.x
    }

    /// The `y` coordinate.
    pub fn y(self) -> (r: i64)
        ensures
            r == self.y,
    {
        self.y
    }

    /// Componentwise sum.
    pub fn add(self, o: Point) -> (r: Point)
        requires
            i64::MIN <= self.x + o.x <= i64::MAX,
            i64::MIN <= self.y + o.y <= i64::MAX,
        ensures
            r.x == self.x + o.x,
            r.y == self.y + o.y,
    {
        Point { x: self.x + o.x, y: self.y + o.y }
    }

    /// Componentwise difference.
    pub fn sub(self, o: Point) -> (r: Point)
        requires
            i64::MIN <= self.x - o.x <= i64::MAX,
            i64::MIN <= self.y - o.y <= i64::MAX,
        ensures
            r.x == self.x - o.x,
            r.y == self.y - o.y,
    {
        Point { x: self.x - o.x, y: self.y - o.y }
    }

    /// Both coordinates multiplied by `k`.
    pub fn mul(self, k: i64) -> (r: Point)
        requires
            i64::MIN <= self.x * k <= i64::MAX,
            i64::MIN <= self.y * k <= i64::MAX,
        ensures
            r.x == self.x * k,
            r.y == self.y * k,
    {
        Point { x: self.x * k, y: self.y * k }
    }

    /// The point reflected through the origin.
    pub fn neg(self) -> (r: Point)
        requires
            self.bounded(),
        ensures
            r.x == -self.x,
            r.y == -self.y,
    {
        Point { x: -self.x, y: -self.y }
    }

    /// Dot product of `self` and `o`.
    pub fn dot(self, o: Point) -> (r: i64)
        requires
            self.bounded(),
            o.bounded(),
        ensures
            r == self.x * o.x + self.y * o.y,
    {
        assert(-COORD_MAX * COORD_MAX <= self.x * o.x <= COORD_MAX * COORD_MAX) by (nonlinear_arith)
            requires
                -COORD_MAX <= self.x <= COORD_MAX,
                -COORD_MAX <= o.x <= COORD_MAX,
        ;
        assert(-COORD_MAX * COORD_MAX <= self.y * o.y <= COORD_MAX * COORD_MAX) by (nonlinear_arith)
            requires
                -COORD_MAX <= self.y <= COORD_MAX,
                -COORD_MAX <= o.y <= COORD_MAX,
        ;
        self.x * o.x + self.y * o.y
    }

    /// Manhattan norm `|x| + |y|`.
    pub fn manhattan(self) -> (r: i64)
        requires
            self.bounded(),
        ensures
            r == abs(self.x as int) + abs(self.y as int),
    {
        let ax: i64 = if self.x < 0 {
            -self.x
        } else {
            self.x
        };
        let ay: i64 = if self.y < 0 {
            -self.y
        } else {
            self.y
        };
        ax + ay
    }

    /// Orders the coordinates of two points componentwise: the first result
    /// holds the minima, the second the maxima.
    pub fn sort_coords(self, other: Point) -> (r: (Point, Point))
        ensures
            r.0.x == if self.x <= other.x { self.x } else { other.x },
            r.0.y == if self.y <= other.y { self.y } else { other.y },
            r.1.x == if self.x <= other.x { other.x } else { self.x },
            r.1.y == if self.y <= other.y { other.y } else { self.y },
    {
        let (x0, x1) = if self.x > other.x {
            (other.x, self.x)
        } else {
            (self.x, other.x)
        };
        let (y0, y1) = if self.y > other.y {
            (other.y, self.y)
        } else {
            (self.y, other.y)
        };
        (Point { x: x0, y: y0 }, Point { x: x1, y: y1 })
    }

    /// Whether the Euclidean norm of `self` is at most `z`.
    pub fn norm_at_most(self, z: i64) -> (r: bool)
        requires
            self.bounded(),
            -COORD_MAX <= z <= COORD_MAX,
        ensures
            r == (self.x * self.x + self.y * self.y <= z * z),
    {
        let d = self.dot(self);
        assert(0 <= z * z <= COORD_MAX * COORD_MAX) by (nonlinear_arith)
            requires
                -COORD_MAX <= z <= COORD_MAX,
        ;
        d <= z * z
    }
}

impl Dir {
    /// The unit step of this direction.
    pub open spec fn offset(self) -> Point {
        match self {
            Dir::N => pt(0, -1),
            Dir::S => pt(0, 1),
            Dir::E => pt(1, 0),
            Dir::W => pt(-1, 0),
            Dir::Ne => pt(1, -1),
            Dir::Nw => pt(-1, -1),
            Dir::Se => pt(1, 1),
            Dir::Sw => pt(-1, 1),
        }
    }

    /// The eight directions, in the fixed order in which searches expand them.
    pub open spec fn all_spec() -> Seq<Dir> {
        seq![Dir::N, Dir::S, Dir::E, Dir::W, Dir::Ne, Dir::Nw, Dir::Sw, Dir::Se]
    }

    /// The eight directions, in the fixed order in which searches expand them.
    pub fn all() -> (r: Vec<Dir>)
        ensures
            r@ == Dir::all_spec(),
    {
        let r = vec![Dir::N, Dir::S, Dir::E, Dir::W, Dir::Ne, Dir::Nw, Dir::Sw, Dir::Se];
        assert(r@ =~= Dir::all_spec());
        r
    }

    /// The unit step of this direction.
    pub fn to_point(self) -> (r: Point)
        ensures
            r == self.offset(),
    {
        match self {
            Dir::N => Point { x: 0, y: -1 },
            Dir::S => Point { x: 0, y: 1 },
            Dir::E => Point { x: 1, y: 0 },
            Dir::W => Point { x: -1, y: 0 },
            Dir::Ne => Point { x: 1, y: -1 },
            Dir::Nw => Point { x: -1, y: -1 },
            Dir::Se => Point { x: 1, y: 1 },
            Dir::Sw => Point { x: -1, y: 1 },
        }
    }
}


/// A rectangle given by two opposite corners.
///
/// The first corner holds the minimal coordinates, the second the maximal
/// ones. Its points are those `p` with `0.x <= p.x < 1.x` and
/// `0.y <= p.y < 1.y`: the maximal edges are not part of the rectangle.
#[derive(Clone, Copy, PartialEq, Eq, Structural, PartialOrd, Ord, Debug, Hash)]
pub struct Rect(pub Point, pub Point);

/// `a` comes strictly before `b` in row-major order.
pub open spec fn row_major_lt(a: Point, b: Point) -> bool {
    a.y < b.y || (a.y == b.y && a.x < b.x)
}

/// The sequence is strictly increasing in row-major order.
pub open spec fn row_major_sorted(s: Seq<Point>) -> bool {
    forall|i: int, j: int| 0 <= i < j < s.len() ==> row_major_lt(#[trigger] s[i], #[trigger] s[j])
}

impl Rect {
    /// Corners ordered componentwise, and both bounded.
    pub open spec fn wf(self) -> bool {
        self.0.bounded() && self.1.bounded() && self.0.x <= self.1.x && self.0.y <= self.1.y
    }

    /// `p` lies in this rectangle.
    pub open spec fn has(self, p: Point) -> bool {
        self.0.x <= p.x < self.1.x && self.0.y <= p.y < self.1.y
    }

    /// `p` lies in this rectangle, in its first or last row or column.
    pub open spec fn on_boundary(self, p: Point) -> bool {
        self.has(p) && (p.x == self.0.x || p.x == self.1.x - 1 || p.y == self.0.y || p.y
            == self.1.y - 1)
    }

    pub open spec fn width_spec(self) -> int {
        self.1.x - self.0.x
    }

    pub open spec fn height_spec(self) -> int {
        self.1.y - self.0.y
    }

    /// Creates the rectangle with `from` and `to` as opposite corners.
    pub fn new(from: Point, to: Point) -> (r: Rect)
        requires
            from.bounded(),
            to.bounded(),
        ensures
            r.wf(),
            r.0.x == if from.x <= to.x { from.x } else { to.x },
            r.0.y == if from.y <= to.y { from.y } else { to.y },
            r.1.x == if from.x <= to.x { to.x } else { from.x },
            r.1.y == if from.y <= to.y { to.y } else { from.y },
    {
        let (min, max) = from.sort_coords(to);
        Rect(min, max)
    }

    /// A rectangle of the given dimensions with one corner at the origin.
    pub fn with_dims(width: i64, height: i64) -> (r: Rect)
        requires
            -COORD_MAX <= width <= COORD_MAX,
            -COORD_MAX <= height <= COORD_MAX,
        ensures
            r.wf(),
            r.0 == pt(0, 0),
            r.1 == pt(abs(width as int), abs(height as int)),
    {
        let w: i64 = if width < 0 {
            -width
        } else {
            width
        };
        let h: i64 = if height < 0 {
            -height
        } else {
            height
        };
        Rect(Point::zero(), Point::new(w, h))
    }

    /// The corner with the minimal coordinates.
    pub fn upper_left(self) -> (r: Point)
        ensures
            r == self.0,
    {
        self.0
    }

    /// The corner with the maximal coordinates.
    pub fn lower_right(self) -> (r: Point)
        ensures
            r == self.1,
    {
        self.1
    }

    /// Both corners.
    pub fn corners(self) -> (r: (Point, Point))
        ensures
            r == (self.0, self.1),
    {
        (self.0, self.1)
    }

    /// Width of the rectangle.
    pub fn width(self) -> (r: i64)
        requires
            self.wf(),
        ensures
            r == self.width_spec(),
    {
        self.1.x - self.0.x
    }

    /// Height of the rectangle.
    pub fn height(self) -> (r: i64)
        requires
            self.wf(),
        ensures
            r == self.height_spec(),
    {
        self.1.y - self.0.y
    }

    /// Area of the rectangle.
    pub fn area(self) -> (r: i64)
        requires
            self.wf(),
        ensures
            r == self.width_spec() * self.height_spec(),
            r >= 0,
    {
        let w = self.width();
        let h = self.height();
        assert(0 <= w * h <= 4 * COORD_MAX * COORD_MAX) by (nonlinear_arith)
            requires
                0 <= w <= 2 * COORD_MAX,
                0 <= h <= 2 * COORD_MAX,
        ;
        w * h
    }

    /// Whether the rectangle holds no point.
    pub fn is_empty(self) -> (r: bool)
        requires
            self.wf(),
        ensures
            r == (self.width_spec() * self.height_spec() <= 0),
            r == !(exists|p: Point| self.has(p)),
    {
        let r = self.area() <= 0;
        if !r {
            assert(self.has(self.0)) by (nonlinear_arith)
                requires
                    self.width_spec() * self.height_spec() > 0,
                    self.width_spec() >= 0,
                    self.height_spec() >= 0,
                    self.has(self.0) == (self.0.x < self.1.x && self.0.y < self.1.y),
            ;
        } else {
            assert(self.width_spec() == 0 || self.height_spec() == 0) by (nonlinear_arith)
                requires
                    self.width_spec() * self.height_spec() <= 0,
                    self.width_spec() >= 0,
                    self.height_spec() >= 0,
            ;
        }
        r
    }

    /// Whether `p` lies in the rectangle.
    pub fn contains(self, p: Point) -> (r: bool)
        ensures
            r == self.has(p),
    {
        self.0.x <= p.x && p.x < self.1.x && self.0.y <= p.y && p.y < self.1.y
    }

    /// Whether `p` lies in the first or last row or column of the rectangle.
    pub fn boundary_contains(self, p: Point) -> (r: bool)
        requires
            self.wf(),
        ensures
            r == self.on_boundary(p),
    {
        let on_edge = p.x == self.0.x || p.x == self.1.x - 1 || p.y == self.0.y || p.y == self.1.y
            - 1;
        on_edge && self.contains(p)
    }

    /// The rectangle moved by `p`.
    pub fn add(self, p: Point) -> (r: Rect)
        requires
            self.wf(),
            p.bounded(),
        ensures
            r.0.x == self.0.x + p.x,
            r.0.y == self.0.y + p.y,
            r.1.x == self.1.x + p.x,
            r.1.y == self.1.y + p.y,
    {
        Rect(self.0.add(p), self.1.add(p))
    }

    /// The rectangle moved by `-p`.
    pub fn sub(self, p: Point) -> (r: Rect)
        requires
            self.wf(),
            p.bounded(),
        ensures
            r.0.x == self.0.x - p.x,
            r.0.y == self.0.y - p.y,
            r.1.x == self.1.x - p.x,
            r.1.y == self.1.y - p.y,
    {
        Rect(self.0.sub(p), self.1.sub(p))
    }

    /// The intersection with `other`, or `None` when they share no point.
    pub fn intersect(self, other: Rect) -> (r: Option<Rect>)
        requires
            self.wf(),
            other.wf(),
        ensures
            r is None <==> !(exists|p: Point| self.has(p) && other.has(p)),
            r is Some ==> r->0.wf() && forall|p: Point|
                r->0.has(p) <==> (self.has(p) && other.has(p)),
    {
        let (_, lo) = self.0.sort_coords(other.0);
        let (hi, _) = self.1.sort_coords(other.1);
        if lo.x >= hi.x || lo.y >= hi.y {
            assert forall|p: Point| !(self.has(p) && other.has(p)) by {}
            return None;
        }
        assert(self.has(lo) && other.has(lo));
        Some(Rect(lo, hi))
    }

    /// All points of the rectangle, in row-major order.
    pub fn points(self) -> (r: Vec<Point>)
        requires
            self.wf(),
        ensures
            forall|p: Point| r@.contains(p) <==> self.has(p),
            row_major_sorted(r@),
    {
        let mut r: Vec<Point> = Vec::new();
        let mut y = self.0.y;
        while y < self.1.y
            invariant
                self.wf(),
                self.0.y <= y <= self.1.y,
                row_major_sorted(r@),
                forall|k: int| 0 <= k < r@.len() ==> self.has(#[trigger] r@[k]) && r@[k].y < y,
                forall|p: Point| self.has(p) && p.y < y ==> r@.contains(p),
            decreases self.1.y - y,
        {
            let mut x = self.0.x;
            while x < self.1.x
                invariant
                    self.wf(),
                    self.0.y <= y < self.1.y,
                    self.0.x <= x <= self.1.x,
                    row_major_sorted(r@),
                    forall|k: int|
                        0 <= k < r@.len() ==> self.has(#[trigger] r@[k]) && row_major_lt(
                            r@[k],
                            pt(x as int, y as int),
                        ),
                    forall|p: Point|
                        self.has(p) && (p.y < y || (p.y == y && p.x < x)) ==> r@.contains(p),
                decreases self.1.x - x,
            {
                let q = Point::new(x, y);
                let ghost old_r = r@;
                r.push(q);
                assert forall|p: Point|
                    self.has(p) && (p.y < y || (p.y == y && p.x < x + 1)) implies r@.contains(
                    p,
                ) by {
                    if p == q {
                        assert(r@[r@.len() - 1] == q);
                    } else {
                        assert(old_r.contains(p));
                        let k = choose|k: int| 0 <= k < old_r.len() && old_r[k] == p;
                        assert(r@[k] == p);
                    }
                }
                x = x + 1;
            }
            y = y + 1;
        }
        r
    }

    /// The points of the first and last rows and columns of the rectangle:
    /// the first row, then the two ends of each inner row, then the last row.
    pub fn boundary(self) -> (r: Vec<Point>)
        requires
            self.wf(),
        ensures
            forall|p: Point| self.on_boundary(p) ==> r@.contains(p),
            self.0.x < self.1.x && self.0.y < self.1.y ==> forall|k: int|
                0 <= k < r@.len() ==> self.on_boundary(#[trigger] r@[k]),
            r@.len() == 2 * self.width_spec() + 2 * (if self.height_spec() >= 2 {
                self.height_spec() - 2
            } else {
                0
            }),
            self.width_spec() >= 2 && self.height_spec() >= 2 ==> r@.no_duplicates(),
    {
        let mut r: Vec<Point> = Vec::new();
        let mut x = self.0.x;
        while x < self.1.x
            invariant
                self.wf(),
                self.0.x <= x <= self.1.x,
                r@.len() == x - self.0.x,
                forall|k: int| 0 <= k < r@.len() ==> #[trigger] r@[k] == pt(self.0.x + k, self.0.y as int),
            decreases self.1.x - x,
        {
            r.push(Point::new(x, self.0.y));
            x = x + 1;
        }
        let ghost top = r@;
        let mut y = self.0.y + 1;
        while y < self.1.y - 1
            invariant
                self.wf(),
                self.0.y + 1 <= y,
                y <= self.1.y - 1 || y == self.0.y + 1,
                r@.len() >= top.len(),
                forall|k: int| 0 <= k < top.len() ==> #[trigger] r@[k] == top[k],
                forall|k: int|
                    top.len() <= k < r@.len() ==> (#[trigger] r@[k]).y < y && self.0.y < r@[k].y
                        && (r@[k].x == self.0.x || r@[k].x == self.1.x - 1),
                top.len() == self.width_spec(),
                r@.len() == top.len() + 2 * (y - self.0.y - 1),
                forall|k: int|
                    top.len() <= k < r@.len() ==> (#[trigger] r@[k]).y == self.0.y + 1 + (k - top.len())
                        / 2 && r@[k].x == (if (k - top.len()) % 2 == 0 {
                        self.0.x as int
                    } else {
                        self.1.x - 1
                    }),
                forall|p: Point|
                    self.on_boundary(p) && self.0.y < p.y < y && p.y < self.1.y - 1 ==> r@.contains(p),
            decreases self.1.y - y,
        {
            let ghost before = r@;
            r.push(Point::new(self.0.x, y));
            r.push(Point::new(self.1.x - 1, y));
            assert forall|k: int|
                top.len() <= k < r@.len() implies (#[trigger] r@[k]).y == self.0.y + 1 + (k - top.len())
                    / 2 && r@[k].x == (if (k - top.len()) % 2 == 0 {
                    self.0.x as int
                } else {
                    self.1.x - 1
                }) by {
                if k < before.len() {
                    assert(r@[k] == before[k]);
                }
            }
            assert forall|p: Point|
                self.on_boundary(p) && self.0.y < p.y < y + 1 && p.y < self.1.y - 1 implies r@.contains(p) by {
                if p.y == y {
                    if p.x == self.0.x {
                        assert(r@[before.len() as int] == p);
                    } else {
                        assert(r@[before.len() as int + 1] == p);
                    }
                } else {
                    let k = choose|k: int| 0 <= k < before.len() && before[k] == p;
                    assert(r@[k] == p);
                }
            }
            y = y + 1;
        }
        let ghost middle = r@;
        let mut x = self.0.x;
        while x < self.1.x
            invariant
                self.wf(),
                self.0.x <= x <= self.1.x,
                r@.len() == middle.len() + (x - self.0.x),
                forall|k: int| 0 <= k < middle.len() ==> #[trigger] r@[k] == middle[k],
                forall|k: int|
                    middle.len() <= k < r@.len() ==> #[trigger] r@[k] == pt(
                        self.0.x + (k - middle.len()),
                        self.1.y - 1,
                    ),
            decreases self.1.x - x,
        {
            r.push(Point::new(x, self.1.y - 1));
            x = x + 1;
        }
        assert forall|p: Point| self.on_boundary(p) implies r@.contains(p) by {
            if p.y == self.0.y {
                assert(r@[p.x - self.0.x] == p);
            } else if p.y == self.1.y - 1 {
                assert(r@[middle.len() as int + (p.x - self.0.x)] == p);
            } else {
                let k = choose|k: int| 0 <= k < middle.len() && middle[k] == p;
                assert(r@[k] == p);
            }
        }
        proof {
            let ghost w = self.width_spec();
            let ghost mlen = middle.len() - top.len();
            assert(mlen == 2 * (if self.height_spec() >= 2 { self.height_spec() - 2 } else { 0 }));
            if w >= 2 && self.height_spec() >= 2 {
                assert forall|a: int, b: int| 0 <= a < b < r@.len() implies r@[a] != r@[b] by {
                    if b < top.len() {
                        assert(r@[a] == top[a] && r@[b] == top[b]);
                    } else if b < middle.len() {
                        assert(r@[b] == middle[b]);
                        if a < top.len() {
                            assert(r@[a] == top[a]);
                        } else {
                            assert(r@[a] == middle[a]);
                        }
                    } else if a >= middle.len() {
                    } else if a < top.len() {
                        assert(r@[a] == top[a]);
                    } else {
                        assert(r@[a] == middle[a]);
                    }
                }
            }
        }
        if self.0.x < self.1.x && self.0.y < self.1.y {
            assert forall|k: int| 0 <= k < r@.len() implies self.on_boundary(#[trigger] r@[k]) by {
                if k < top.len() {
                    assert(r@[k] == top[k]);
                } else if k < middle.len() {
                    assert(r@[k] == middle[k]);
                }
            }
        }
        r
    }
}


/// `v / 2`, rounded towards zero.
pub open spec fn half(v: int) -> int {
    if v >= 0 {
        v / 2
    } else {
        -((-v) / 2)
    }
}

/// `v / 2`, rounded towards zero.
fn halve(v: i64) -> (r: i64)
    requires
        v > i64::MIN,
    ensures
        r == half(v as int),
{
    if v >= 0 {
        ((v as u64) / 2) as i64
    } else {
        -((((-v) as u64) / 2) as i64)
    }
}

impl Rect {
    /// The midpoint of the two corners, each coordinate halved towards zero
    /// before the sum.
    pub fn center(self) -> (r: Point)
        requires
            self.wf(),
        ensures
            r == pt(half(self.0.x as int) + half(self.1.x as int), half(self.0.y as int) + half(
                self.1.y as int,
            )),
    {
        Point::new(halve(self.0.x) + halve(self.1.x), halve(self.0.y) + halve(self.1.y))
    }

    /// A rectangle of the same dimensions, moved so that its centre is about
    /// `center`: its first corner is `center` less half the dimensions.
    pub fn centered_on(self, center: Point) -> (r: Rect)
        requires
            self.wf(),
            -COORD_MAX <= center.x - half(self.width_spec()),
            center.x - half(self.width_spec()) + self.width_spec() <= COORD_MAX,
            -COORD_MAX <= center.y - half(self.height_spec()),
            center.y - half(self.height_spec()) + self.height_spec() <= COORD_MAX,
        ensures
            r.wf(),
            r.0 == pt(center.x - half(self.width_spec()), center.y - half(self.height_spec())),
            r.width_spec() == self.width_spec(),
            r.height_spec() == self.height_spec(),
    {
        let w = self.width();
        let h = self.height();
        proof {
            assert(0 <= half(w as int) <= w);
            assert(0 <= half(h as int) <= h);
        }
        let hw = halve(w);
        let hh = halve(h);
        let corner = Point::new(center.x - hw, center.y - hh);
        Rect(corner, Point::new(corner.x + w, corner.y + h))
    }
}


/// A rectangle with a value at each of its points, stored row by row.
pub struct RectVec<T> {
    pub dims: Rect,
    pub data: Vec<T>,
}

impl<T: Copy> RectVec<T> {
    /// One value per point of the rectangle.
    pub open spec fn wf(&self) -> bool {
        self.dims.wf() && self.data@.len() == self.dims.width_spec() * self.dims.height_spec()
    }

    /// Where the value of `p` is stored.
    pub open spec fn slot(&self, p: Point) -> int {
        (p.x - self.dims.0.x) + (p.y - self.dims.0.y) * self.dims.width_spec()
    }

    /// A `RectVec` of no point.
    pub fn empty() -> (r: RectVec<T>)
        ensures
            r.wf(),
            r.dims == Rect(pt(0, 0), pt(0, 0)),
            r.data@.len() == 0,
    {
        RectVec { dims: Rect::with_dims(0, 0), data: Vec::new() }
    }

    /// A `RectVec` over `rect` holding `val` at every point.
    pub fn new(rect: Rect, val: T) -> (r: RectVec<T>)
        requires
            rect.wf(),
            rect.width_spec() * rect.height_spec() <= usize::MAX,
        ensures
            r.wf(),
            r.dims == rect,
            forall|i: int| 0 <= i < r.data@.len() ==> r.data@[i] == val,
    {
        let n = rect.area() as usize;
        let mut data: Vec<T> = Vec::new();
        let mut i: usize = 0;
        while i < n
            invariant
                i <= n,
                data@.len() == i,
                forall|j: int| 0 <= j < i ==> data@[j] == val,
            decreases n - i,
        {
            data.push(val);
            i = i + 1;
        }
        RectVec { dims: rect, data }
    }

    /// The rectangle.
    pub fn dims(&self) -> (r: Rect)
        ensures
            r == self.dims,
    {
        self.dims
    }

    /// The values, row by row.
    pub fn data(&self) -> (r: &[T])
        ensures
            r@ == self.data@,
    {
        self.data.as_slice()
    }

    /// Moves to `new_rect` and puts `val` at every point.
    pub fn resize(&mut self, new_rect: Rect, val: T)
        requires
            old(self).wf(),
            new_rect.wf(),
            new_rect.width_spec() * new_rect.height_spec() <= usize::MAX,
        ensures
            final(self).wf(),
            final(self).dims == new_rect,
            forall|i: int| 0 <= i < final(self).data@.len() ==> final(self).data@[i] == val,
    {
        if self.dims.area() == new_rect.area() {
            self.dims = new_rect;
            let mut i: usize = 0;
            while i < self.data.len()
                invariant
                    self.dims == new_rect,
                    self.data@.len() == new_rect.width_spec() * new_rect.height_spec(),
                    i <= self.data@.len(),
                    forall|j: int| 0 <= j < i ==> self.data@[j] == val,
                decreases self.data@.len() - i,
            {
                self.data.set(i, val);
                i = i + 1;
            }
        } else {
            *self = RectVec::new(new_rect, val);
        }
    }

    /// Where `p` is stored, if it lies in the rectangle.
    fn slot_of(&self, p: Point) -> (r: Option<usize>)
        requires
            self.wf(),
        ensures
            r is Some <==> self.dims.has(p),
            r is Some ==> r->0 == self.slot(p) && r->0 < self.data@.len(),
    {
        if !self.dims.contains(p) {
            return None;
        }
        let origin = self.dims.upper_left();
        let rel = p.sub(origin);
        let w = self.dims.width();
        let h = self.dims.height();
        assert(0 <= rel.y * w <= (h - 1) * w && (h - 1) * w + w == h * w) by (nonlinear_arith)
            requires
                0 <= rel.y < h,
                0 <= w,
        ;
        assert(h * w == w * h) by (nonlinear_arith);
        assert((h - 1) * w <= 4 * COORD_MAX * COORD_MAX) by (nonlinear_arith)
            requires
                0 <= h <= 2 * COORD_MAX,
                0 <= w <= 2 * COORD_MAX,
        ;
        let index = rel.x + rel.y * w;
        let len = self.data.len();
        assert(index < len);
        Some(index as usize)
    }

    /// The value at `p`, or `None` outside the rectangle.
    pub fn get(&self, p: Point) -> (r: Option<&T>)
        requires
            self.wf(),
        ensures
            r is Some <==> self.dims.has(p),
            r is Some ==> *r->0 == self.data@[self.slot(p)],
    {
        match self.slot_of(p) {
            Some(i) => Some(&self.data[i]),
            None => None,
        }
    }

    /// The values, row by row, for writing.
    pub fn data_mut(&mut self) -> (r: &mut [T])
        ensures
            r@ == old(self).data@,
            final(r)@ == final(self).data@,
            final(self).dims == old(self).dims,
    {
        self.data.as_mut_slice()
    }

    /// The value at `p` for writing, or `None` outside the rectangle.
    pub fn get_mut(&mut self, p: Point) -> (r: Option<&mut T>)
        requires
            old(self).wf(),
        ensures
            r is Some <==> old(self).dims.has(p),
            final(self).dims == old(self).dims,
            r is Some ==> *r.unwrap() == old(self).data@[old(self).slot(p)] && final(self).data@
                == old(self).data@.update(old(self).slot(p), *final(r.unwrap())),
            r is None ==> final(self).data@ == old(self).data@,
    {
        match self.slot_of(p) {
            Some(i) => Some(&mut self.data[i]),
            None => None,
        }
    }

    /// Replaces the value at `p`; returns whether `p` lies in the rectangle.
    pub fn set(&mut self, p: Point, val: T) -> (r: bool)
        requires
            old(self).wf(),
        ensures
            final(self).wf(),
            final(self).dims == old(self).dims,
            r == old(self).dims.has(p),
            r ==> final(self).data@ == old(self).data@.update(old(self).slot(p), val),
            !r ==> final(self).data@ == old(self).data@,
    {
        match self.slot_of(p) {
            Some(i) => {
                self.data.set(i, val);
                true
            },
            None => false,
        }
    }

    /// Every point of the rectangle, row by row, with its value.
    pub fn points(&self) -> (r: Vec<(Point, T)>)
        requires
            self.wf(),
        ensures
            r@.len() == self.data@.len(),
            forall|k: int|
                0 <= k < r@.len() ==> self.dims.has((#[trigger] r@[k]).0) && self.slot(r@[k].0)
                    == k && r@[k].1 == self.data@[k],
    {
        let mut r: Vec<(Point, T)> = Vec::new();
        let x0 = self.dims.0.x;
        let y0 = self.dims.0.y;
        let w = self.dims.width();
        let mut y = y0;
        while y < self.dims.1.y
            invariant
                self.wf(),
                x0 == self.dims.0.x,
                y0 == self.dims.0.y,
                w == self.dims.width_spec(),
                y0 <= y <= self.dims.1.y,
                r@.len() == (y - y0) * w,
                forall|k: int|
                    0 <= k < r@.len() ==> self.dims.has((#[trigger] r@[k]).0) && self.slot(r@[k].0)
                        == k && r@[k].1 == self.data@[k],
            decreases self.dims.1.y - y,
        {
            let mut x = x0;
            while x < self.dims.1.x
                invariant
                    self.wf(),
                    x0 == self.dims.0.x,
                    y0 == self.dims.0.y,
                    w == self.dims.width_spec(),
                    y0 <= y < self.dims.1.y,
                    x0 <= x <= self.dims.1.x,
                    r@.len() == (y - y0) * w + (x - x0),
                    forall|k: int|
                        0 <= k < r@.len() ==> self.dims.has((#[trigger] r@[k]).0) && self.slot(
                            r@[k].0,
                        ) == k && r@[k].1 == self.data@[k],
                decreases self.dims.1.x - x,
            {
                let p = Point::new(x, y);
                let i = r.len();
                assert(i < self.data@.len()) by (nonlinear_arith)
                    requires
                        i == (y - y0) * w + (x - x0),
                        0 <= x - x0 < w,
                        0 <= y - y0 < self.dims.height_spec(),
                        self.data@.len() == w * self.dims.height_spec(),
                ;
                r.push((p, self.data[i]));
                x = x + 1;
            }
            assert((y - y0) * w + w == (y + 1 - y0) * w) by (nonlinear_arith);
            y = y + 1;
        }
        assert((y - y0) * w == w * self.dims.height_spec()) by (nonlinear_arith)
            requires
                y == self.dims.1.y,
                y0 == self.dims.0.y,
        ;
        r
    }
}


/// `v` divided by `d`, rounded towards negative infinity.
fn div_floor(v: i64, d: i64) -> (r: i64)
    requires
        -4 * COORD_MAX <= v <= 4 * COORD_MAX,
        1 <= d <= 4 * COORD_MAX,
    ensures
        r == v as int / d as int,
        r * d <= v < r * d + d,
{
    if v >= 0 {
        let q = ((v as u64) / (d as u64)) as i64;
        proof {
            vstd::arithmetic::div_mod::lemma_fundamental_div_mod(v as int, d as int);
            vstd::arithmetic::div_mod::lemma_mod_bound(v as int, d as int);
            assert(q * d <= v < q * d + d) by (nonlinear_arith)
                requires
                    v == d * (v / d) + v % d,
                    0 <= v % d < d,
                    q == v / d,
            ;
        }
        q
    } else {
        let a: u64 = (-v) as u64;
        let t = ((a + (d as u64) - 1) / (d as u64)) as i64;
        proof {
            let n: int = a as int + d as int - 1;
            let dd: int = d as int;
            vstd::arithmetic::div_mod::lemma_fundamental_div_mod(n, dd);
            vstd::arithmetic::div_mod::lemma_mod_bound(n, dd);
            assert(t * dd <= n < t * dd + dd) by (nonlinear_arith)
                requires
                    n == dd * (n / dd) + n % dd,
                    0 <= n % dd < dd,
                    t == n / dd,
            ;
            assert(t * d <= 4 * COORD_MAX + d) by (nonlinear_arith)
                requires
                    t * d <= n,
                    n == a + d - 1,
                    a <= 4 * COORD_MAX,
            ;
            assert((-t) * d == -(t * d)) by (nonlinear_arith);
            vstd::arithmetic::div_mod::lemma_fundamental_div_mod_converse(
                v as int,
                d as int,
                -t,
                v + t * d,
            );
        }
        -t
    }
}

/// The larger of two integers.
fn max_i64(a: i64, b: i64) -> (r: i64)
    ensures
        r == if a >= b { a } else { b },
{
    if a >= b {
        a
    } else {
        b
    }
}

/// The smaller of two integers.
fn min_i64(a: i64, b: i64) -> (r: i64)
    ensures
        r == if a <= b { a } else { b },
{
    if a <= b {
        a
    } else {
        b
    }
}

/// The cell of the tiling by `tile` that holds `p`, as a pair of indices.
pub open spec fn cell_of(tile: Rect, p: Point) -> (int, int) {
    ((p.x - tile.0.x) / tile.width_spec(), (p.y - tile.0.y) / tile.height_spec())
}

impl Rect {
    /// Cuts this rectangle along the tiling of the plane by copies of
    /// `tile`: the non-empty intersections with the cells of the tiling, in
    /// row-major order of the cells.
    pub fn disect(self, tile: Rect) -> (r: Vec<Rect>)
        requires
            self.wf(),
            tile.wf(),
            tile.width_spec() > 0,
            tile.height_spec() > 0,
        ensures
            forall|k: int|
                0 <= k < r@.len() ==> (#[trigger] r@[k]).wf() && r@[k].0.x < r@[k].1.x && r@[k].0.y
                    < r@[k].1.y,
            forall|k: int, p: Point| 0 <= k < r@.len() && #[trigger] r@[k].has(p) ==> self.has(p),
            forall|k: int, p: Point, q: Point|
                0 <= k < r@.len() && #[trigger] r@[k].has(p) && #[trigger] r@[k].has(q) ==> cell_of(
                    tile,
                    p,
                ) == cell_of(tile, q),
            forall|p: Point| self.has(p) ==> exists|k: int| 0 <= k < r@.len() && #[trigger] r@[k].has(p),
    {
        let ts = tile.0;
        let dx = tile.width();
        let dy = tile.height();
        let x0 = self.0.x - ts.x;
        let y0 = self.0.y - ts.y;
        let x1 = self.1.x - ts.x;
        let y1 = self.1.y - ts.y;
        let sx = div_floor(x0, dx) * dx;
        let sy = div_floor(y0, dy) * dy;
        let ghost qy0 = x0 as int / dx as int;
        let ghost qy = y0 as int / dy as int;
        let mut out: Vec<Rect> = Vec::new();
        let mut y = sy;
        while y < y1
            invariant
                self.wf(),
                tile.wf(),
                ts == tile.0,
                dx == tile.width_spec(),
                dy == tile.height_spec(),
                dx > 0,
                dy > 0,
                x0 == self.0.x - ts.x,
                y0 == self.0.y - ts.y,
                x1 == self.1.x - ts.x,
                y1 == self.1.y - ts.y,
                sx == qy0 * dx,
                sx <= x0,
                x0 < sx + dx,
                y == qy * dy,
                y0 < y + dy,
                y <= y1 + dy,
                forall|k: int|
                    0 <= k < out@.len() ==> (#[trigger] out@[k]).wf() && out@[k].0.x < out@[k].1.x
                        && out@[k].0.y < out@[k].1.y,
                forall|k: int, p: Point| 0 <= k < out@.len() && #[trigger] out@[k].has(p) ==> self.has(p),
                forall|k: int, p: Point, q: Point|
                    0 <= k < out@.len() && #[trigger] out@[k].has(p) && #[trigger] out@[k].has(q)
                        ==> cell_of(tile, p) == cell_of(tile, q),
                forall|p: Point|
                    self.has(p) && p.y - ts.y < y ==> exists|k: int|
                        0 <= k < out@.len() && #[trigger] out@[k].has(p),
            decreases y1 + dy - y,
        {
            let mut x = sx;
            let ghost mut qx = qy0;
            while x < x1
                invariant
                    self.wf(),
                    tile.wf(),
                    ts == tile.0,
                    dx == tile.width_spec(),
                    dy == tile.height_spec(),
                    dx > 0,
                    dy > 0,
                    x0 == self.0.x - ts.x,
                    y0 == self.0.y - ts.y,
                    x1 == self.1.x - ts.x,
                    y1 == self.1.y - ts.y,
                    y == qy * dy,
                    y0 < y + dy,
                    y < y1,
                    x == qx * dx,
                    x0 < x + dx,
                    x <= x1 + dx,
                    forall|k: int|
                        0 <= k < out@.len() ==> (#[trigger] out@[k]).wf() && out@[k].0.x
                            < out@[k].1.x && out@[k].0.y < out@[k].1.y,
                    forall|k: int, p: Point|
                        0 <= k < out@.len() && #[trigger] out@[k].has(p) ==> self.has(p),
                    forall|k: int, p: Point, q: Point|
                        0 <= k < out@.len() && #[trigger] out@[k].has(p) && #[trigger] out@[k].has(
                            q,
                        ) ==> cell_of(tile, p) == cell_of(tile, q),
                    forall|p: Point|
                        self.has(p) && (p.y - ts.y < y || (p.y - ts.y < y + dy && p.x - ts.x < x))
                            ==> exists|k: int| 0 <= k < out@.len() && #[trigger] out@[k].has(p),
                decreases x1 + dx - x,
            {
                let ix0 = max_i64(x, x0);
                let ix1 = min_i64(x + dx, x1);
                let iy0 = max_i64(y, y0);
                let iy1 = min_i64(y + dy, y1);
                if ix0 < ix1 && iy0 < iy1 {
                    let cell = Rect(
                        Point::new(ix0 + ts.x, iy0 + ts.y),
                        Point::new(ix1 + ts.x, iy1 + ts.y),
                    );
                    let ghost before = out@;
                    out.push(cell);
                    proof {
                        assert forall|p: Point, q: Point| #[trigger] cell.has(p) && #[trigger] cell.has(q)
                            implies cell_of(tile, p) == cell_of(tile, q) by {
                            vstd::arithmetic::div_mod::lemma_fundamental_div_mod_converse(
                                p.x - ts.x,
                                dx as int,
                                qx,
                                p.x - ts.x - x,
                            );
                            vstd::arithmetic::div_mod::lemma_fundamental_div_mod_converse(
                                q.x - ts.x,
                                dx as int,
                                qx,
                                q.x - ts.x - x,
                            );
                            vstd::arithmetic::div_mod::lemma_fundamental_div_mod_converse(
                                p.y - ts.y,
                                dy as int,
                                qy,
                                p.y - ts.y - y,
                            );
                            vstd::arithmetic::div_mod::lemma_fundamental_div_mod_converse(
                                q.y - ts.y,
                                dy as int,
                                qy,
                                q.y - ts.y - y,
                            );
                        }
                        assert forall|k: int, p: Point, q: Point|
                            0 <= k < out@.len() && #[trigger] out@[k].has(p) && #[trigger] out@[k].has(
                                q,
                            ) implies cell_of(tile, p) == cell_of(tile, q) by {
                            if k < before.len() {
                                assert(out@[k] == before[k]);
                            }
                        }
                        assert forall|p: Point|
                            self.has(p) && (p.y - ts.y < y || (p.y - ts.y < y + dy && p.x - ts.x < x
                                + dx)) implies exists|k: int|
                            0 <= k < out@.len() && #[trigger] out@[k].has(p) by {
                            if p.y - ts.y < y || p.x - ts.x < x {
                                let k = choose|k: int| 0 <= k < before.len() && #[trigger] before[k].has(p);
                                assert(out@[k] == before[k]);
                            } else {
                                assert(out@[before.len() as int] == cell);
                                assert(cell.has(p));
                            }
                        }
                    }
                }
                proof {
                    qx = qx + 1;
                    assert(qx * dx == x + dx) by (nonlinear_arith)
                        requires
                            x == (qx - 1) * dx,
                    ;
                }
                x = x + dx;
            }
            proof {
                qy = qy + 1;
                assert(qy * dy == y + dy) by (nonlinear_arith)
                    requires
                        y == (qy - 1) * dy,
                ;
            }
            y = y + dy;
        }
        out
    }
}

} // verus!
