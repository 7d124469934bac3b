//! Field of view by recursive shadow casting over eight octants.
//!
//! Sector bounds are exact rationals `y / x`, compared by cross
//! multiplication. Tiles are diamonds with beveled corners: a corner lets
//! light pass unless the tile next to it is opaque too.
use crate::geo::Point;
use vstd::prelude::*;

verus! {

/// Largest semi-axis of a view range.
///
/// The ellipse test multiplies four coordinates or semi-axes, and the
/// sector bounds multiply a slope component (up to twice the range) by a
/// tile corner (up to about four times the farthest row a bound reaches,
/// which grows with the square of the range). With semi-axes up to 1024
/// both products stay far inside `i64`; much larger ranges would not.
pub const FOV_RANGE_MAX: i64 = 1024;

/// Largest octant row that a sector bound can project onto.
pub const FOV_ROW_MAX: i64 = 5242880;

/// `p` lies strictly inside the ellipse with semi-axes `range.x`, `range.y`
/// centred on `origin`.
pub open spec fn in_view(origin: Point, range: Point, p: Point) -> bool {
    let dx = p.x - origin.x;
    let dy = p.y - origin.y;
    dx * dx * range.y * range.y + dy * dy * range.x * range.x < range.x * range.x * range.y
        * range.y
}

/// A view range that the field-of-view computation accepts.
pub open spec fn valid_range(range: Point) -> bool {
    1 <= range.x <= FOV_RANGE_MAX && 1 <= range.y <= FOV_RANGE_MAX
}

/// An origin whose neighbourhood of rows the computation may query.
pub open spec fn valid_origin(origin: Point) -> bool {
    -crate::geo::COORD_MAX <= origin.x <= crate::geo::COORD_MAX && -crate::geo::COORD_MAX
        <= origin.y <= crate::geo::COORD_MAX
}

/// The predicate can be asked about every point.
pub open spec fn total<F: Fn(Point) -> bool>(f: &F) -> bool {
    forall|p: Point| #[trigger] f.requires((p,))
}

/// The predicate reports no point strictly inside the view ellipse as
/// opaque.
pub open spec fn clear_view<F: Fn(Point) -> bool>(f: &F, origin: Point, range: Point) -> bool {
    forall|p: Point, b: bool| in_view(origin, range, p) && #[trigger] f.ensures((p,), b) ==> !b
}

/// Every answer of the predicate says that a point is opaque exactly when
/// it lies in the column `x == c`.
pub open spec fn wall_at<F: Fn(Point) -> bool>(f: &F, c: int) -> bool {
    forall|p: Point, b: bool| #[trigger] f.ensures((p,), b) ==> b == (p.x == c)
}

/// Every answer of the predicate says "opaque".
pub open spec fn all_opaque<F: Fn(Point) -> bool>(f: &F) -> bool {
    forall|p: Point, b: bool| #[trigger] f.ensures((p,), b) ==> b
}

/// `new` keeps `old` as its prefix and adds only points inside the view.
pub open spec fn grows_in_view(old: Seq<Point>, new: Seq<Point>, origin: Point, range: Point) -> bool {
    &&& old.len() <= new.len()
    &&& forall|k: int| 0 <= k < old.len() ==> new[k] == old[k]
    &&& forall|k: int| old.len() <= k < new.len() ==> in_view(origin, range, #[trigger] new[k])
}

/// A bearing `y / x` from the origin, with `x > 0`; kept unreduced.
#[derive(Clone, Copy, PartialEq, Eq, Structural)]
struct Slope {
    x: i64,
    y: i64,
}

/// Bounds kept by every sector slope.
spec fn slope_ok(s: Slope) -> bool {
    1 <= s.x <= 2 * FOV_RANGE_MAX + 1 && 0 <= s.y <= 2 * FOV_RANGE_MAX + 1
}

/// The slope of a point of the doubled or quadrupled tile lattice.
spec fn corner_ok(cx: int, cy: int) -> bool {
    1 <= cx <= 4 * FOV_RANGE_MAX + 4 && -1 <= cy <= 4 * FOV_ROW_MAX + 8
}

/// `s` is steeper than the bearing of `(cx, cy)`.
fn steeper(s: Slope, cx: i64, cy: i64) -> (r: bool)
    requires
        slope_ok(s),
        corner_ok(cx as int, cy as int),
    ensures
        r == (s.y * cx > cy * s.x),
{
    assert(s.y * cx <= 2049 * 4100) by (nonlinear_arith)
        requires
            0 <= s.y <= 2 * FOV_RANGE_MAX + 1,
            1 <= cx <= 4 * FOV_RANGE_MAX + 4,
    ;
    assert(-2049 <= cy * s.x <= 20971528 * 2049)
        by (nonlinear_arith)
        requires
            1 <= s.x <= 2 * FOV_RANGE_MAX + 1,
            -1 <= cy <= 4 * FOV_ROW_MAX + 8,
    ;
    assert(s.y * cx >= 0) by (nonlinear_arith)
        requires
            0 <= s.y,
            1 <= cx,
    ;
    s.y * cx > cy * s.x
}

/// `s` is at least as steep as the bearing of `(cx, cy)`.
fn steeper_or_equal(s: Slope, cx: i64, cy: i64) -> (r: bool)
    requires
        slope_ok(s),
        corner_ok(cx as int, cy as int),
    ensures
        r == (s.y * cx >= cy * s.x),
{
    assert(s.y * cx <= 2049 * 4100) by (nonlinear_arith)
        requires
            0 <= s.y <= 2 * FOV_RANGE_MAX + 1,
            1 <= cx <= 4 * FOV_RANGE_MAX + 4,
    ;
    assert(-2049 <= cy * s.x <= 20971528 * 2049)
        by (nonlinear_arith)
        requires
            1 <= s.x <= 2 * FOV_RANGE_MAX + 1,
            -1 <= cy <= 4 * FOV_ROW_MAX + 8,
    ;
    assert(s.y * cx >= 0) by (nonlinear_arith)
        requires
            0 <= s.y,
            1 <= cx,
    ;
    s.y * cx >= cy * s.x
}

/// The row of column `x` whose left edge the bound `s` crosses.
fn entry_row(x: i64, s: Slope) -> (r: i64)
    requires
        1 <= x <= FOV_RANGE_MAX,
        slope_ok(s),
    ensures
        0 <= r <= FOV_ROW_MAX,
        r == ((2 * x - 1) * s.y + s.x) / (2 * s.x),
{
    assert(0 <= (2 * x - 1) * s.y <= 2048 * 2049)
        by (nonlinear_arith)
        requires
            1 <= x <= FOV_RANGE_MAX,
            0 <= s.y <= 2 * FOV_RANGE_MAX + 1,
    ;
    let num: i64 = (2 * x - 1) * s.y + s.x;
    let den: i64 = 2 * s.x;
    let r = ((num as u64) / (den as u64)) as i64;
    assert(r <= num) by (nonlinear_arith)
        requires
            r == num / den,
            num >= 0,
            den >= 1,
    ;
    r
}

/// One octant of the plane around an origin.
struct Octant {
    origin: Point,
    range: Point,
    index: u8,
}

impl Octant {
    spec fn wf(self) -> bool {
        valid_origin(self.origin) && valid_range(self.range) && self.index < 8
    }

    /// Whether this octant exchanges the roles of the two axes.
    spec fn swapped(self) -> bool {
        self.index == 1 || self.index == 2 || self.index == 5 || self.index == 6
    }

    /// Semi-axis along the octant's own x direction.
    spec fn a(self) -> int {
        if self.swapped() {
            self.range.y as int
        } else {
            self.range.x as int
        }
    }

    /// Semi-axis along the octant's own y direction.
    spec fn b(self) -> int {
        if self.swapped() {
            self.range.x as int
        } else {
            self.range.y as int
        }
    }

    /// The map point of octant coordinates `(x, y)`.
    spec fn to_map(self, x: int, y: int) -> Point {
        let ox = self.origin.x as int;
        let oy = self.origin.y as int;
        let (mx, my) = if self.index == 0 {
            (ox + x, oy + y)
        } else if self.index == 1 {
            (ox - y, oy - x)
        } else if self.index == 2 {
            (ox + y, oy - x)
        } else if self.index == 3 {
            (ox - x, oy + y)
        } else if self.index == 4 {
            (ox - x, oy - y)
        } else if self.index == 5 {
            (ox + y, oy + x)
        } else if self.index == 6 {
            (ox - y, oy + x)
        } else {
            (ox + x, oy - y)
        };
        Point { x: mx as i64, y: my as i64 }
    }

    /// Octant coordinates `(x, y)` lie inside the view ellipse.
    spec fn inside(self, x: int, y: int) -> bool {
        x * x * self.b() * self.b() + y * y * self.a() * self.a() < self.a() * self.a() * self.b()
            * self.b()
    }

    fn map(&self, x: i64, y: i64) -> (r: Point)
        requires
            self.wf(),
            -1 <= x <= FOV_RANGE_MAX + 1,
            -1 <= y <= FOV_ROW_MAX + 1,
        ensures
            r == self.to_map(x as int, y as int),
    {
        let ox = self.origin.x;
        let oy = self.origin.y;
        match self.index {
            0 => Point::new(ox + x, oy + y),
            1 => Point::new(ox - y, oy - x),
            2 => Point::new(ox + y, oy - x),
            3 => Point::new(ox - x, oy + y),
            4 => Point::new(ox - x, oy - y),
            5 => Point::new(ox + y, oy + x),
            6 => Point::new(ox - y, oy + x),
            _ => Point::new(ox + x, oy - y),
        }
    }

    /// Whether the tile at octant coordinates `(x, y)` blocks light.
    fn opaque<F: Fn(Point) -> bool>(&self, is_opaque: &F, x: i64, y: i64) -> (r: bool)
        requires
            self.wf(),
            total(is_opaque),
            -1 <= x <= FOV_RANGE_MAX + 1,
            -1 <= y <= FOV_ROW_MAX + 1,
        ensures
            is_opaque.ensures((self.to_map(x as int, y as int),), r),
            clear_inside(*self, is_opaque) && self.inside(x as int, y as int) ==> !r,
            forall|k: int| #[trigger] col_wall(*self, is_opaque, k) && 1 <= x <= k ==> r == (x == k),
            forall|k: int| #[trigger] row_wall(*self, is_opaque, k) ==> r == (y == k),
    {
        let p = self.map(x, y);
        let r = is_opaque(p);
        proof {
            reveal(col_wall);
            reveal(row_wall);
        }
        r
    }
}

/// The predicate reports no point inside the octant's ellipse as opaque.
spec fn clear_inside<F: Fn(Point) -> bool>(o: Octant, f: &F) -> bool {
    forall|x: int, y: int, b: bool| o.inside(x, y) && #[trigger] f.ensures((o.to_map(x, y),), b) ==> !b
}

proof fn lemma_clear_octant<F: Fn(Point) -> bool>(o: Octant, f: &F)
    requires
        o.wf(),
        clear_view(f, o.origin, o.range),
    ensures
        clear_inside(o, f),
{
    assert forall|x: int, y: int, b: bool| o.inside(x, y) && #[trigger] f.ensures((o.to_map(x, y),), b) implies !b by {
        lemma_inside_bounds(o.a(), o.b(), x, y);
        lemma_inside_in_view(o, x, y);
    }
}

/// A point inside the octant's ellipse is inside the view.
proof fn lemma_inside_in_view(o: Octant, x: int, y: int)
    requires
        o.wf(),
        o.inside(x, y),
        -FOV_ROW_MAX <= x <= FOV_ROW_MAX,
        -FOV_ROW_MAX <= y <= FOV_ROW_MAX,
    ensures
        in_view(o.origin, o.range, o.to_map(x, y)),
{
    let p = o.to_map(x, y);
    let rx = o.range.x as int;
    let ry = o.range.y as int;
    assert((-x) * (-x) == x * x) by (nonlinear_arith);
    assert((-y) * (-y) == y * y) by (nonlinear_arith);
    if o.swapped() {
        assert(x * x * rx * rx + y * y * ry * ry < ry * ry * rx * rx);
        assert(ry * ry * rx * rx == rx * rx * ry * ry) by (nonlinear_arith);
    }
}

/// Each point of the plane other than the origin has octant coordinates
/// `(x, y)` with `0 <= y <= x` in some octant.
proof fn lemma_covered(origin: Point, range: Point, p: Point) -> (r: (u8, int, int))
    requires
        valid_origin(origin),
        valid_range(range),
        p != origin,
    ensures
        r.0 < 8,
        1 <= r.1,
        0 <= r.2 <= r.1,
        (Octant { origin, range, index: r.0 }).to_map(r.1, r.2) == p,
        r.1 == p.x - origin.x || r.1 == origin.x - p.x || r.1 == p.y - origin.y || r.1 == origin.y
            - p.y,
        r.2 == p.x - origin.x || r.2 == origin.x - p.x || r.2 == p.y - origin.y || r.2 == origin.y
            - p.y,
{
    let dx = p.x - origin.x;
    let dy = p.y - origin.y;
    let adx = if dx < 0 {
        -dx
    } else {
        dx
    };
    let ady = if dy < 0 {
        -dy
    } else {
        dy
    };
    if adx >= ady {
        if dx > 0 {
            if dy >= 0 {
                (0u8, dx, dy)
            } else {
                (7u8, dx, -dy)
            }
        } else {
            if dy >= 0 {
                (3u8, -dx, dy)
            } else {
                (4u8, -dx, -dy)
            }
        }
    } else {
        if dy < 0 {
            if dx <= 0 {
                (1u8, -dy, -dx)
            } else {
                (2u8, -dy, dx)
            }
        } else {
            if dx >= 0 {
                (5u8, dy, dx)
            } else {
                (6u8, dy, -dx)
            }
        }
    }
}

/// The octant coordinates of a point in view lie inside the octant's ellipse.
proof fn lemma_in_view_inside(o: Octant, x: int, y: int)
    requires
        o.wf(),
        in_view(o.origin, o.range, o.to_map(x, y)),
        -FOV_ROW_MAX <= x <= FOV_ROW_MAX,
        -FOV_ROW_MAX <= y <= FOV_ROW_MAX,
    ensures
        o.inside(x, y),
{
    let rx = o.range.x as int;
    let ry = o.range.y as int;
    assert((-x) * (-x) == x * x) by (nonlinear_arith);
    assert((-y) * (-y) == y * y) by (nonlinear_arith);
    if o.swapped() {
        assert(ry * ry * rx * rx == rx * rx * ry * ry) by (nonlinear_arith);
    }
}

/// Inside the ellipse an octant coordinate is smaller than its semi-axis.
proof fn lemma_inside_bounds(a: int, b: int, x: int, y: int)
    requires
        1 <= a,
        1 <= b,
        x * x * b * b + y * y * a * a < a * a * b * b,
    ensures
        -a < x < a,
        -b < y < b,
{
    assert(x * x * b * b >= 0 && y * y * a * a >= 0) by (nonlinear_arith);
    if x >= a || x <= -a {
        assert(x * x >= a * a) by (nonlinear_arith)
            requires
                x >= a || x <= -a,
                a >= 1,
        ;
        assert(x * x * b * b >= a * a * b * b) by (nonlinear_arith)
            requires
                x * x >= a * a,
        ;
    }
    if y >= b || y <= -b {
        assert(y * y >= b * b) by (nonlinear_arith)
            requires
                y >= b || y <= -b,
                b >= 1,
        ;
        assert(y * y * a * a >= b * b * a * a) by (nonlinear_arith)
            requires
                y * y >= b * b,
        ;
        assert(b * b * a * a == a * a * b * b) by (nonlinear_arith);
    }
}


/// `p` stands in `s` at an index of at least `n`.
pub open spec fn lit_since(s: Seq<Point>, n: int, p: Point) -> bool {
    exists|k: int| 0 <= k && n <= k < s.len() && s[k] == p
}

/// `s1` is a prefix of `s2`.
spec fn prefix_of(s1: Seq<Point>, s2: Seq<Point>) -> bool {
    s1.len() <= s2.len() && forall|k: int| 0 <= k < s1.len() ==> s2[k] == s1[k]
}

spec fn start_top() -> Slope {
    Slope { x: 1, y: 1 }
}

spec fn start_bottom() -> Slope {
    Slope { x: 1, y: 0 }
}

/// Every point inside the ellipse in octant columns `from..to` (with
/// `0 <= y <= x`) stands in `s` from index `n` on.
spec fn cols_lit(o: Octant, s: Seq<Point>, n: int, from: int, to: int) -> bool {
    forall|xx: int, yy: int|
        #![trigger o.to_map(xx, yy)]
        from <= xx < to && 0 <= yy <= xx && o.inside(xx, yy) ==> lit_since(s, n, o.to_map(xx, yy))
}

/// Every point inside the ellipse in column `x` with `lo < y <= hi` stands in
/// `s` from index `n` on.
spec fn col_lit(o: Octant, s: Seq<Point>, n: int, x: int, lo: int, hi: int) -> bool {
    forall|yy: int|
        #![trigger o.to_map(x, yy)]
        lo < yy <= hi && o.inside(x, yy) ==> lit_since(s, n, o.to_map(x, yy))
}

proof fn lemma_lit_since_grow(s1: Seq<Point>, s2: Seq<Point>, n: int, p: Point)
    requires
        prefix_of(s1, s2),
        lit_since(s1, n, p),
    ensures
        lit_since(s2, n, p),
{
    let k = choose|k: int| 0 <= k && n <= k < s1.len() && s1[k] == p;
    assert(k < s2.len());
    assert(s2[k] == s1[k]);
}

proof fn lemma_grows_push(s0: Seq<Point>, s1: Seq<Point>, p: Point, origin: Point, range: Point)
    requires
        grows_in_view(s0, s1, origin, range),
        in_view(origin, range, p),
    ensures
        grows_in_view(s0, s1.push(p), origin, range),
        prefix_of(s1, s1.push(p)),
        s1.push(p)[s1.len() as int] == p,
{
    let s2 = s1.push(p);
    assert forall|k: int| s0.len() <= k < s2.len() implies in_view(origin, range, #[trigger] s2[k]) by {
        if k < s1.len() {
            assert(s2[k] == s1[k]);
        }
    }
}

proof fn lemma_grows_trans(s0: Seq<Point>, s1: Seq<Point>, s2: Seq<Point>, origin: Point, range: Point)
    requires
        grows_in_view(s0, s1, origin, range),
        grows_in_view(s1, s2, origin, range),
    ensures
        grows_in_view(s0, s2, origin, range),
        prefix_of(s1, s2),
{
    assert forall|k: int| s0.len() <= k < s2.len() implies in_view(origin, range, #[trigger] s2[k]) by {
        if k < s1.len() {
            assert(s2[k] == s1[k]);
        }
    }
}

proof fn lemma_cols_grow(o: Octant, s1: Seq<Point>, s2: Seq<Point>, n: int, from: int, to: int)
    requires
        prefix_of(s1, s2),
        cols_lit(o, s1, n, from, to),
    ensures
        cols_lit(o, s2, n, from, to),
{
    assert forall|xx: int, yy: int|
        from <= xx < to && 0 <= yy <= xx && o.inside(xx, yy) implies lit_since(
        s2,
        n,
        o.to_map(xx, yy),
    ) by {
        lemma_lit_since_grow(s1, s2, n, o.to_map(xx, yy));
    }
}

proof fn lemma_col_grow(o: Octant, s1: Seq<Point>, s2: Seq<Point>, n: int, x: int, lo: int, hi: int)
    requires
        prefix_of(s1, s2),
        col_lit(o, s1, n, x, lo, hi),
    ensures
        col_lit(o, s2, n, x, lo, hi),
{
    assert forall|yy: int| lo < yy <= hi && o.inside(x, yy) implies lit_since(
        s2,
        n,
        o.to_map(x, yy),
    ) by {
        lemma_lit_since_grow(s1, s2, n, o.to_map(x, yy));
    }
}

/// A column left of the semi-axis holds a point inside the ellipse on its
/// first row.
proof fn lemma_row_zero_inside(o: Octant, x: int)
    requires
        o.wf(),
        0 <= x < o.a(),
    ensures
        o.inside(x, 0),
{
    let a = o.a();
    let b = o.b();
    assert(x * x * b * b < a * a * b * b) by (nonlinear_arith)
        requires
            0 <= x < a,
            b >= 1,
    ;
    assert(0 * 0 * a * a == 0) by (nonlinear_arith);
}

/// Within the window that the sweep queries, the predicate reports exactly
/// the octant column `k` as opaque.
#[verifier::opaque]
spec fn col_wall<F: Fn(Point) -> bool>(o: Octant, f: &F, k: int) -> bool {
    forall|x: int, y: int, b: bool|
        1 <= x <= k && -1 <= y <= FOV_ROW_MAX + 1 && #[trigger] f.ensures(
            (o.to_map(x, y),),
            b,
        ) ==> b == (x == k)
}

/// Within the window that the sweep queries, the predicate reports exactly
/// the octant row `k` as opaque.
#[verifier::opaque]
spec fn row_wall<F: Fn(Point) -> bool>(o: Octant, f: &F, k: int) -> bool {
    forall|x: int, y: int, b: bool|
        -1 <= x <= FOV_RANGE_MAX + 1 && -1 <= y <= FOV_ROW_MAX + 1 && #[trigger] f.ensures(
            (o.to_map(x, y),),
            b,
        ) ==> b == (y == k)
}

/// `p` is the map point of octant coordinates `(x, y)` with `1 <= x <= xl`
/// and `0 <= y <= yl`.
spec fn placed(o: Octant, p: Point, xl: int, yl: int) -> bool {
    exists|x: int, y: int| 1 <= x <= xl && 0 <= y <= yl && p == #[trigger] o.to_map(x, y)
}

/// Every point that `new` adds to `old` is placed within `xl` and `yl`.
spec fn grows_placed(old: Seq<Point>, new: Seq<Point>, o: Octant, xl: int, yl: int) -> bool {
    forall|k: int| old.len() <= k < new.len() ==> placed(o, #[trigger] new[k], xl, yl)
}

/// The top bound of a sweep along a wall row `k`, at the start of column
/// `x`: the first bound up to the wall's column, then the bound that grazes
/// the corner of the wall tile of the column before.
spec fn wall_top(x: int, k: int) -> Slope {
    if x <= k {
        start_top()
    } else {
        Slope { x: (2 * x - 1) as i64, y: (2 * k - 1) as i64 }
    }
}

proof fn lemma_grows_placed_push(s0: Seq<Point>, s1: Seq<Point>, p: Point, o: Octant, xl: int, yl: int)
    requires
        grows_placed(s0, s1, o, xl, yl),
        s0.len() <= s1.len(),
        placed(o, p, xl, yl),
    ensures
        grows_placed(s0, s1.push(p), o, xl, yl),
{
    assert forall|k: int| s0.len() <= k < s1.push(p).len() implies placed(o, #[trigger] s1.push(p)[k], xl, yl) by {
        if k < s1.len() {
            assert(s1.push(p)[k] == s1[k]);
        }
    }
}

proof fn lemma_grows_placed_trans(s0: Seq<Point>, s1: Seq<Point>, s2: Seq<Point>, o: Octant, xl: int, yl: int)
    requires
        grows_placed(s0, s1, o, xl, yl),
        grows_placed(s1, s2, o, xl, yl),
        prefix_of(s1, s2),
        s0.len() <= s1.len(),
    ensures
        grows_placed(s0, s2, o, xl, yl),
{
    assert forall|k: int| s0.len() <= k < s2.len() implies placed(o, #[trigger] s2[k], xl, yl) by {
        if k < s1.len() {
            assert(s2[k] == s1[k]);
        }
    }
}

/// Inside the ellipse, lowering a coordinate towards zero stays inside.
proof fn lemma_inside_mono(o: Octant, x1: int, y1: int, x2: int, y2: int)
    requires
        o.wf(),
        0 <= x1 <= x2,
        0 <= y1 <= y2,
        o.inside(x2, y2),
    ensures
        o.inside(x1, y1),
{
    let a = o.a();
    let b = o.b();
    assert(x1 * x1 * b * b <= x2 * x2 * b * b) by (nonlinear_arith)
        requires
            0 <= x1 <= x2,
    ;
    assert(y1 * y1 * a * a <= y2 * y2 * a * a) by (nonlinear_arith)
        requires
            0 <= y1 <= y2,
    ;
}

/// Along a wall row `k`, the bound `wall_top(x, k)` of a column `x` past
/// the wall's first tile enters the column at row `k`, below the top
/// middle of the wall tile there.
proof fn lemma_wall_top_row(x: int, k: int)
    requires
        1 <= k,
        k + 1 <= x <= FOV_RANGE_MAX,
    ensures
        ((2 * x - 1) * (2 * k - 1) + (2 * x - 1)) / (2 * (2 * x - 1)) == k,
        !((2 * k - 1) * (2 * x) >= (2 * k + 1) * (2 * x - 1)),
{
    let d = 2 * (2 * x - 1);
    assert((2 * x - 1) * (2 * k - 1) + (2 * x - 1) == d * k) by (nonlinear_arith)
        requires
            d == 2 * (2 * x - 1),
    ;
    vstd::arithmetic::div_mod::lemma_div_multiples_vanish(k, d);
    assert(!((2 * k - 1) * (2 * x) >= (2 * k + 1) * (2 * x - 1))) by (nonlinear_arith)
        requires
            1 <= k,
            k + 1 <= x,
    ;
}

/// Sweeps the sector between `top` and `bottom` of one octant, from column
/// `x_start` outwards, lighting the tiles that the sector reaches and
/// recursing into the part above each obstruction.
#[verifier::rlimit(100)]
fn recurse<F: Fn(Point) -> bool>(
    o: &Octant,
    is_opaque: &F,
    lit: &mut Vec<Point>,
    x_start: i64,
    top0: Slope,
    bottom0: Slope,
    wall: Ghost<int>,
)
    requires
        o.wf(),
        total(is_opaque),
        1 <= x_start <= FOV_RANGE_MAX + 1,
        slope_ok(top0),
        slope_ok(bottom0),
        1 <= wall@ <= FOV_RANGE_MAX + 1,
    ensures
        grows_in_view(old(lit)@, final(lit)@, o.origin, o.range),
        grows_placed(old(lit)@, final(lit)@, *o, o.a(), o.b()),
        col_wall(*o, is_opaque, wall@) && top0 == start_top() && bottom0 == start_bottom() && x_start == 1 ==> grows_placed(
            old(lit)@,
            final(lit)@,
            *o,
            wall@,
            wall@,
        ),
        col_wall(*o, is_opaque, wall@) && top0 == start_top() && bottom0 == start_bottom() && x_start == 1 && wall@
            < o.a() ==> col_lit(*o, final(lit)@, old(lit)@.len() as int, wall@, -1, wall@),
        row_wall(*o, is_opaque, wall@) && top0 == start_top() && bottom0 == start_bottom() && x_start == 1 ==> grows_placed(
            old(lit)@,
            final(lit)@,
            *o,
            o.a(),
            wall@,
        ),
        clear_inside(*o, is_opaque) && top0 == start_top() && bottom0 == start_bottom() ==> cols_lit(
            *o,
            final(lit)@,
            old(lit)@.len() as int,
            x_start as int,
            o.a() + 1,
        ),
    decreases FOV_RANGE_MAX + 2 - x_start,
{
    let ghost n0 = lit@.len() as int;
    let ghost lit0 = lit@;
    let ghost open = clear_inside(*o, is_opaque) && top0 == start_top() && bottom0 == start_bottom();
    let ghost k = wall@;
    let ghost cmode = col_wall(*o, is_opaque, k) && top0 == start_top() && bottom0 == start_bottom() && x_start == 1;
    let ghost rmode = row_wall(*o, is_opaque, k) && top0 == start_top() && bottom0 == start_bottom() && x_start == 1;
    let swapped = o.index == 1 || o.index == 2 || o.index == 5 || o.index == 6;
    let a: i64 = if swapped {
        o.range.y
    } else {
        o.range.x
    };
    let b: i64 = if swapped {
        o.range.x
    } else {
        o.range.y
    };
    let mut top = top0;
    let mut bottom = bottom0;
    let mut x = x_start;
    while x <= a
        invariant
            o.wf(),
            total(is_opaque),
            a == o.a(),
            b == o.b(),
            1 <= x_start <= x,
            x <= a + 1 || x == x_start,
            x_start <= FOV_RANGE_MAX + 1,
            slope_ok(top),
            slope_ok(bottom),
            grows_in_view(lit0, lit@, o.origin, o.range),
            n0 == lit0.len(),
            lit0 == old(lit)@,
            open == (clear_inside(*o, is_opaque) && top0 == start_top() && bottom0
                == start_bottom()),
            open ==> top == start_top() && bottom == start_bottom() && cols_lit(
                *o,
                lit@,
                n0,
                x_start as int,
                x as int,
            ),
            1 <= k <= FOV_RANGE_MAX + 1,
            k == wall@,
            cmode == (col_wall(*o, is_opaque, k) && top0 == start_top() && bottom0 == start_bottom() && x_start == 1),
            rmode == (row_wall(*o, is_opaque, k) && top0 == start_top() && bottom0 == start_bottom() && x_start == 1),
            grows_placed(lit0, lit@, *o, a as int, b as int),
            cmode ==> grows_placed(lit0, lit@, *o, k, k),
            rmode ==> grows_placed(lit0, lit@, *o, a as int, k),
            cmode ==> top == start_top() && bottom == start_bottom() && x <= k,
            rmode ==> bottom == start_bottom() && ((x <= k && top == start_top()) || (!o.inside(
                x as int,
                k,
            ) && top.y <= top.x) || (x >= k + 1 && top == wall_top(x as int, k))),
        ensures
            open ==> x >= a && cols_lit(*o, lit@, n0, x_start as int, x as int),
            cmode && k < a ==> col_lit(*o, lit@, n0, k, -1, k),
        decreases a + 1 - x,
    {
        // The row where the top bound enters the column.
        let top_y: i64 = if top.x == 1 {
            x
        } else {
            let y = entry_row(x, top);
            proof {
                if rmode && x >= k + 1 && top == wall_top(x as int, k) {
                    lemma_wall_top_row(x as int, k);
                    assert(y == k);
                }
            }
            if o.opaque(is_opaque, x, y) {
                if steeper_or_equal(top, 2 * x, 2 * y + 1) && o.opaque(is_opaque, x, y + 1) {
                    y + 1
                } else {
                    y
                }
            } else {
                let beveled = !o.opaque(is_opaque, x + 1, y + 1);
                let cx = if beveled {
                    2 * x
                } else {
                    2 * x + 1
                };
                if steeper(top, cx, 2 * y + 1) {
                    y + 1
                } else {
                    y
                }
            }
        };
        // The row where the bottom bound enters the column.
        let bottom_y: i64 = if bottom.y == 0 {
            0
        } else {
            let y = entry_row(x, bottom);
            if steeper_or_equal(bottom, 2 * x, 2 * y - 1) && o.opaque(is_opaque, x, y) && !o.opaque(
                is_opaque,
                x,
                y + 1,
            ) {
                y + 1
            } else {
                y
            }
        };
        let mut was_opaque: Option<bool> = None;
        // Rows at or above `b` lie outside the ellipse.
        let mut y: i64 = if top_y < b - 1 {
            top_y
        } else {
            b - 1
        };
        proof {
            if open || cmode {
                assert forall|yy: int| y < yy <= x implies !o.inside(x as int, yy) by {
                    if o.inside(x as int, yy) {
                        lemma_inside_bounds(o.a(), o.b(), x as int, yy);
                    }
                }
            }
            if rmode {
                if x >= k && o.inside(x as int, k) {
                    lemma_inside_bounds(o.a(), o.b(), x as int, k);
                    if x >= k + 1 {
                        assert(top == wall_top(x as int, k));
                        assert(top_y == k);
                    }
                }
            }
        }
        while y >= bottom_y
            invariant
                o.wf(),
                total(is_opaque),
                a == o.a(),
                b == o.b(),
                1 <= x <= a,
                x_start <= x,
                x_start <= FOV_RANGE_MAX + 1,
                0 <= bottom_y,
                y < b,
                y <= top_y,
                top_y <= FOV_ROW_MAX + 1,
                bottom_y <= FOV_ROW_MAX + 1,
                slope_ok(top),
                slope_ok(bottom),
                grows_in_view(lit0, lit@, o.origin, o.range),
                n0 == lit0.len(),
                lit0 == old(lit)@,
                open == (clear_inside(*o, is_opaque) && top0 == start_top() && bottom0
                    == start_bottom()),
                open ==> top == start_top() && bottom == start_bottom() && top_y == x && bottom_y
                    == 0 && -1 <= y && was_opaque != Some(true) && cols_lit(
                    *o,
                    lit@,
                    n0,
                    x_start as int,
                    x as int,
                ) && col_lit(*o, lit@, n0, x as int, y as int, x as int) && (was_opaque is None
                    ==> forall|yy: int| y < yy <= x ==> !#[trigger] o.inside(x as int, yy)),
                1 <= k <= FOV_RANGE_MAX + 1,
                k == wall@,
            k == wall@,
                cmode == (col_wall(*o, is_opaque, k) && top0 == start_top() && bottom0 == start_bottom() && x_start == 1),
                rmode == (row_wall(*o, is_opaque, k) && top0 == start_top() && bottom0 == start_bottom() && x_start == 1),
                grows_placed(lit0, lit@, *o, a as int, b as int),
                cmode ==> grows_placed(lit0, lit@, *o, k, k),
                rmode ==> grows_placed(lit0, lit@, *o, a as int, k),
                cmode ==> top == start_top() && bottom == start_bottom() && top_y == x && bottom_y == 0
                    && -1 <= y && x <= k && (x < k ==> was_opaque != Some(true)) && (x == k
                    ==> was_opaque != Some(false)) && (was_opaque is None ==> forall|yy: int|
                    y < yy <= x ==> !#[trigger] o.inside(x as int, yy)) && (x == k ==> col_lit(
                    *o,
                    lit@,
                    n0,
                    k,
                    y as int,
                    k,
                )),
                rmode ==> bottom == start_bottom() && bottom_y == 0 && -1 <= y && ((x < k && top
                    == start_top() && top_y == x && was_opaque != Some(true)) || (!o.inside(
                    x as int,
                    k,
                ) && top.y <= top.x && was_opaque != Some(true)) || (x >= k && o.inside(x as int, k)
                    && top_y == k && top == wall_top(x as int, k) && was_opaque is None && y == k)
                    || (x >= k && o.inside(x as int, k) && top_y == k && top == wall_top(x as int, k)
                    && was_opaque == Some(true) && y == k - 1) || (x >= k && o.inside(x as int, k)
                    && top_y == k && top == wall_top(x as int + 1, k) && was_opaque == Some(false)
                    && y < k - 1)),
            ensures
                open ==> y < bottom_y,
                cmode ==> y < bottom_y,
                rmode ==> y < bottom_y,
            decreases y - bottom_y + 1,
        {
            let ghost y_in = y;
            let ghost was_in = was_opaque;
            let ghost top_in = top;
            proof {
                if rmode && x >= k && o.inside(x as int, k) && was_opaque == Some(true) && y == k - 1 {
                    lemma_inside_mono(*o, x as int, k - 1, x as int, k);
                }
                if rmode && !o.inside(x as int, k) && o.inside(x as int, y as int) && y >= k {
                    lemma_inside_mono(*o, x as int, k, x as int, y as int);
                }
            }
            assert(0 <= x * x <= 1048576 && 0 <= x * x * b <= 1073741824 && 0 <= x * x * b * b
                <= 1099511627776 && 0 <= y * y <= 1048576 && 0 <= y * y * a <= 1073741824 && 0 <= y
                * y * a * a <= 1099511627776 && 0 <= a * a <= 1048576 && 0 <= a * a * b
                <= 1073741824 && 0 <= a * a * b * b <= 1099511627776) by (nonlinear_arith)
                requires
                    1 <= x <= a,
                    0 <= y < b,
                    1 <= a <= 1024,
                    1 <= b <= 1024,
            ;
            if x * x * b * b + y * y * a * a < a * a * b * b {
                let op = o.opaque(is_opaque, x, y);
                // Opaque tiles are always lit, so that walls facing the
                // viewer show. A clear tile at an end of the column is lit
                // only if the bound passes its inner corner.
                let visible = op || ((y != top_y || steeper(top, 4 * x + 1, 4 * y - 1)) && (y
                    != bottom_y || !steeper_or_equal(bottom, 4 * x - 1, 4 * y + 1)));
                if visible {
                    let ghost before = lit@;
                    let p = o.map(x, y);
                    proof {
                        lemma_inside_in_view(*o, x as int, y as int);
                    }
                    lit.push(p);
                    proof {
                        lemma_grows_push(lit0, before, p, o.origin, o.range);
                        assert(p == o.to_map(x as int, y as int));
                        assert(placed(*o, p, a as int, b as int));
                        lemma_grows_placed_push(lit0, before, p, *o, a as int, b as int);
                        if cmode {
                            assert(placed(*o, p, k, k));
                            lemma_grows_placed_push(lit0, before, p, *o, k, k);
                            if x == k {
                                lemma_col_grow(*o, before, lit@, n0, k, y as int, k);
                                assert(lit@[lit@.len() - 1] == p);
                                assert(lit_since(lit@, n0, p));
                            }
                        }
                        if rmode {
                            if y > k {
                                lemma_inside_mono(*o, x as int, k, x as int, y as int);
                            }
                            assert(placed(*o, p, a as int, k));
                            lemma_grows_placed_push(lit0, before, p, *o, a as int, k);
                        }
                        if open {
                            lemma_cols_grow(*o, before, lit@, n0, x_start as int, x as int);
                            lemma_col_grow(*o, before, lit@, n0, x as int, y as int, x as int);
                            assert(lit@[lit@.len() - 1] == p);
                            assert(lit_since(lit@, n0, p));
                        }
                    }
                }
                if op && matches!(was_opaque, Some(false)) {
                    // Clear to opaque: the sector below continues with its
                    // bottom raised onto this tile's top-left corner.
                    let bevel = !o.opaque(is_opaque, x, y + 1);
                    let s = if bevel {
                        Slope { x: 2 * x, y: 2 * y + 1 }
                    } else {
                        Slope { x: 2 * x - 1, y: 2 * y + 1 }
                    };
                    if steeper(top, s.x, s.y) {
                        if y == bottom_y {
                            bottom = s;
                            break ;
                        } else {
                            let ghost before = lit@;
                            recurse(o, is_opaque, lit, x + 1, top, s, Ghost(k));
                            proof {
                                lemma_grows_trans(lit0, before, lit@, o.origin, o.range);
                                lemma_grows_placed_trans(lit0, before, lit@, *o, a as int, b as int);
                            }
                        }
                    } else {
                        if y == bottom_y {
                            return ;
                        }
                    }
                } else if !op && matches!(was_opaque, Some(true)) {
                    // Opaque to clear: the top bound drops to the corner of
                    // the tile just passed.
                    let beveled = !o.opaque(is_opaque, x + 1, y + 1);
                    let s = if beveled {
                        Slope { x: 2 * x, y: 2 * y + 1 }
                    } else {
                        Slope { x: 2 * x + 1, y: 2 * y + 1 }
                    };
                    if steeper(s, bottom.x, bottom.y) {
                        top = s;
                    } else {
                        return ;
                    }
                }
                was_opaque = Some(op);
            } else {
                proof {
                    if open && was_opaque is None {
                        assert(!o.inside(x as int, y as int));
                    }
                }
            }
            proof {
                if open || (cmode && x == k) {
                    assert forall|yy: int| y_in - 1 < yy <= x && o.inside(x as int, yy) implies lit_since(
                        lit@,
                        n0,
                        o.to_map(x as int, yy),
                    ) by {
                        if yy == y_in {
                            assert(o.inside(x as int, y as int));
                        }
                    }
                }
                if rmode {
                    if x < k && top_in == start_top() && top_y == x && was_in != Some(true) {
                        assert(top == start_top());
                        assert(was_opaque != Some(true));
                    } else if !o.inside(x as int, k) && top_in.y <= top_in.x && was_in != Some(true) {
                        assert(top == top_in);
                        assert(was_opaque != Some(true));
                    } else if x >= k && o.inside(x as int, k) && top_in == wall_top(x as int, k)
                        && was_in is None && y_in == k {
                        assert(was_opaque == Some(true));
                        assert(top == wall_top(x as int, k));
                    } else if x >= k && o.inside(x as int, k) && top_in == wall_top(x as int, k)
                        && was_in == Some(true) && y_in == k - 1 {
                        assert(was_opaque == Some(false));
                        assert(top == wall_top(x as int + 1, k));
                    } else {
                        assert(top == top_in);
                        assert(was_opaque == Some(false));
                    }
                }
            }
            y = y - 1;
        }
        // A column that does not end on a clear tile leaves nothing to light
        // further out.
        if !matches!(was_opaque, Some(false)) {
            proof {
                if open {
                    assert(y == -1);
                    assert(was_opaque is None);
                    if x < a {
                        lemma_row_zero_inside(*o, x as int);
                        assert(!o.inside(x as int, 0));
                    }
                }
                if cmode && k < a {
                    assert(y == -1);
                    if x < k {
                        lemma_row_zero_inside(*o, x as int);
                        assert(!o.inside(x as int, 0));
                    }
                }
            }
            break ;
        }
        proof {
            if rmode {
                assert(y == -1);
                if !o.inside(x as int, k) && o.inside(x + 1, k) {
                    lemma_inside_mono(*o, x as int, k, x + 1, k);
                }
            }
            if open {
                assert forall|xx: int, yy: int|
                    x_start <= xx < x + 1 && 0 <= yy <= xx && o.inside(xx, yy) implies lit_since(
                    lit@,
                    n0,
                    o.to_map(xx, yy),
                ) by {
                    if xx == x {
                        assert(y < yy);
                    }
                }
            }
        }
        x = x + 1;
    }
    proof {
        if open {
            assert forall|xx: int, yy: int|
                x_start <= xx < o.a() + 1 && 0 <= yy <= xx && o.inside(xx, yy) implies lit_since(
                lit@,
                n0,
                o.to_map(xx, yy),
            ) by {
                lemma_inside_bounds(o.a(), o.b(), xx, yy);
            }
        }
    }
}


proof fn lemma_cols_weaken(o: Octant, s: Seq<Point>, n: int, n0: int, from: int, to: int)
    requires
        cols_lit(o, s, n, from, to),
        n0 <= n,
    ensures
        cols_lit(o, s, n0, from, to),
{
    assert forall|xx: int, yy: int|
        from <= xx < to && 0 <= yy <= xx && o.inside(xx, yy) implies lit_since(
        s,
        n0,
        o.to_map(xx, yy),
    ) by {
        let p = o.to_map(xx, yy);
        assert(lit_since(s, n, p));
        let k = choose|k: int| 0 <= k && n <= k < s.len() && s[k] == p;
        assert(n0 <= k);
    }
}

proof fn lemma_lit_since_weaken(s: Seq<Point>, n: int, n0: int, p: Point)
    requires
        lit_since(s, n, p),
        n0 <= n,
    ensures
        lit_since(s, n0, p),
{
    let k = choose|k: int| 0 <= k && n <= k < s.len() && s[k] == p;
    assert(n0 <= k);
}

/// A wall column at `origin.x + k` is an octant column wall in the two
/// octants along the positive x axis, and an octant row wall in the two
/// octants next to them.
proof fn lemma_wall_octant<F: Fn(Point) -> bool>(o: Octant, f: &F, k: int)
    requires
        o.wf(),
        1 <= k <= FOV_RANGE_MAX,
        wall_at(f, o.origin.x + k),
    ensures
        o.index == 0 || o.index == 7 ==> col_wall(o, f, k),
        o.index == 2 || o.index == 5 ==> row_wall(o, f, k),
{
    reveal(col_wall);
    reveal(row_wall);
}

/// A point placed in an octant lies at most `k` right of the origin: the
/// octants facing left or vertical lie at or left of it, and in the others
/// the bound on the coordinate along the x axis is `k`.
proof fn lemma_placed_x(o: Octant, p: Point, xl: int, yl: int, k: int)
    requires
        o.wf(),
        placed(o, p, xl, yl),
        1 <= k,
        xl <= FOV_ROW_MAX,
        yl <= FOV_ROW_MAX,
        o.index == 0 || o.index == 7 ==> xl <= k,
        o.index == 2 || o.index == 5 ==> yl <= k,
    ensures
        p.x <= o.origin.x + k,
{
    let (x, y) = choose|x: int, y: int| 1 <= x <= xl && 0 <= y <= yl && p == #[trigger] o.to_map(x, y);
}

/// Where everything is opaque, the first column of each octant is a
/// column wall.
proof fn lemma_dark_octant<F: Fn(Point) -> bool>(o: Octant, f: &F)
    requires
        all_opaque(f),
    ensures
        col_wall(o, f, 1),
{
    reveal(col_wall);
}

proof fn lemma_col_weaken(o: Octant, s: Seq<Point>, n: int, n0: int, x: int, lo: int, hi: int)
    requires
        col_lit(o, s, n, x, lo, hi),
        n0 <= n,
    ensures
        col_lit(o, s, n0, x, lo, hi),
{
    assert forall|yy: int| lo < yy <= hi && o.inside(x, yy) implies lit_since(s, n0, o.to_map(x, yy)) by {
        let p = o.to_map(x, yy);
        let k = choose|k: int| 0 <= k && n <= k < s.len() && s[k] == p;
    }
}

/// A point placed in the first column and the first two rows of an octant
/// is a neighbour of the origin.
proof fn lemma_placed_adjacent(o: Octant, p: Point)
    requires
        o.wf(),
        placed(o, p, 1, 1),
    ensures
        crate::geo::adjacent(p, o.origin),
{
    let (x, y) = choose|x: int, y: int| 1 <= x <= 1 && 0 <= y <= 1 && p == #[trigger] o.to_map(x, y);
}

/// The octant with the given index around `origin`.
spec fn octant_of(origin: Point, range: Point, i: u8) -> Octant {
    Octant { origin, range, index: i }
}

/// Computes the field of view from `origin` by recursive shadow casting.
///
/// The view reaches the points strictly inside the ellipse with semi-axes
/// `range.x` and `range.y` around `origin`; `is_opaque` tells which tiles
/// block light. Each lit point is appended to `lit` (a point may be appended
/// more than once, along the borders of octants). The origin is always lit,
/// whatever its opacity, and comes first; opaque tiles reached by light are
/// lit too. Where no point strictly inside the ellipse is opaque, exactly
/// the points inside the ellipse are lit; where every point is opaque,
/// exactly the origin and those of its eight neighbours inside the ellipse. Where exactly the column `origin.x + k` is opaque, for some
/// `1 <= k < range.x`, no lit point lies beyond that wall and the wall tile
/// facing the origin, `(origin.x + k, origin.y)`, is lit.
pub fn milazzo<F: Fn(Point) -> bool>(origin: Point, range: Point, is_opaque: &F, lit: &mut Vec<Point>)
    requires
        valid_origin(origin),
        valid_range(range),
        total(is_opaque),
    ensures
        final(lit)@.len() > old(lit)@.len(),
        final(lit)@[old(lit)@.len() as int] == origin,
        grows_in_view(old(lit)@, final(lit)@, origin, range),
        clear_view(is_opaque, origin, range) ==> forall|p: Point|
            in_view(origin, range, p) ==> lit_since(final(lit)@, old(lit)@.len() as int, p),
        all_opaque(is_opaque) ==> forall|p: Point|
            lit_since(final(lit)@, old(lit)@.len() as int, p) <==> (p == origin || (
            crate::geo::adjacent(p, origin) && in_view(origin, range, p))),
        forall|k: int|
            1 <= k < range.x && #[trigger] wall_at(is_opaque, origin.x + k) ==> (forall|j: int|
                old(lit)@.len() <= j < final(lit)@.len() ==> (#[trigger] final(lit)@[j]).x
                    <= origin.x + k) && lit_since(
                final(lit)@,
                old(lit)@.len() as int,
                Point { x: (origin.x + k) as i64, y: origin.y },
            ),
{
    let ghost n0 = lit@.len() as int;
    let ghost lit0 = lit@;
    let ghost walled = exists|k: int| 1 <= k < range.x && #[trigger] wall_at(is_opaque, origin.x + k);
    let ghost dark = all_opaque(is_opaque);
    // Find the first opaque tile on the row right of the origin: where a
    // wall column stands, that is its column.
    let at_origin = is_opaque(origin);
    let mut column: i64 = 1;
    if !at_origin {
        let mut j: i64 = 1;
        let mut found = false;
        while j < range.x && !found
            invariant
                valid_origin(origin),
                valid_range(range),
                total(is_opaque),
                1 <= j <= range.x,
                1 <= column <= FOV_RANGE_MAX,
                forall|k: int|
                    1 <= k < range.x && #[trigger] wall_at(is_opaque, origin.x + k) ==> (found ==> column
                        == k) && (!found ==> j <= k),
            decreases range.x - j + (if found { 0int } else { 1int }),
        {
            let q = Point::new(origin.x + j, origin.y);
            if is_opaque(q) {
                found = true;
                column = j;
            } else {
                j = j + 1;
            }
        }
    }
    let ghost wk: int = column as int;
    proof {
        if dark {
            assert(at_origin);
        }
        if walled {
            let k = choose|k: int| 1 <= k < range.x && #[trigger] wall_at(is_opaque, origin.x + k);
            assert(!at_origin);
        }
    }
    assert(0 * 0 * range.y * range.y + 0 * 0 * range.x * range.x < range.x * range.x * range.y
        * range.y) by (nonlinear_arith)
        requires
            range.x >= 1,
            range.y >= 1,
    ;
    lit.push(origin);
    proof {
        lemma_grows_push(lit0, lit0, origin, origin, range);
    }
    let mut octant: u8 = 0;
    while octant < 8
        invariant
            valid_origin(origin),
            valid_range(range),
            total(is_opaque),
            octant <= 8,
            n0 == lit0.len(),
            lit0 == old(lit)@,
            lit@.len() > n0,
            lit@[n0] == origin,
            grows_in_view(lit0, lit@, origin, range),
            walled == (exists|k: int| 1 <= k < range.x && #[trigger] wall_at(is_opaque, origin.x + k)),
            walled ==> 1 <= wk < range.x && wall_at(is_opaque, origin.x + wk),
            dark ==> !walled,
            dark == all_opaque(is_opaque),
            dark ==> !walled,
            dark ==> forall|j: int| n0 < j < lit@.len() ==> crate::geo::adjacent(#[trigger] lit@[j], origin),
            dark ==> forall|i: u8|
                i < octant && 1 < #[trigger] octant_of(origin, range, i).a() ==> col_lit(
                    octant_of(origin, range, i),
                    lit@,
                    n0,
                    1,
                    -1,
                    1,
                ),
            1 <= wk <= FOV_RANGE_MAX,
            dark ==> wk == 1,
            forall|k: int| 1 <= k < range.x && #[trigger] wall_at(is_opaque, origin.x + k) ==> wk == k,
            walled ==> forall|j: int| n0 <= j < lit@.len() ==> (#[trigger] lit@[j]).x <= origin.x + wk,
            walled && octant > 0 ==> lit_since(lit@, n0, Point { x: (origin.x + wk) as i64, y: origin.y }),
            clear_view(is_opaque, origin, range) ==> forall|i: u8|
                i < octant ==> #[trigger] cols_lit(
                    octant_of(origin, range, i),
                    lit@,
                    n0,
                    1,
                    octant_of(origin, range, i).a() + 1,
                ),
        decreases 8 - octant,
    {
        let o = Octant { origin, range, index: octant };
        let ghost before = lit@;
        proof {
            if clear_view(is_opaque, origin, range) {
                lemma_clear_octant(o, is_opaque);
            }
            if dark {
                lemma_dark_octant(o, is_opaque);
            }
        }
        recurse(&o, is_opaque, lit, 1, Slope { x: 1, y: 1 }, Slope { x: 1, y: 0 }, Ghost(wk));
        proof {
            lemma_grows_trans(lit0, before, lit@, origin, range);
            if dark {
                assert(wk == 1);
                assert forall|j: int| n0 < j < lit@.len() implies crate::geo::adjacent(#[trigger] lit@[j], origin) by {
                    if j >= before.len() {
                        lemma_placed_adjacent(o, lit@[j]);
                    } else {
                        assert(lit@[j] == before[j]);
                    }
                }
                assert forall|i: u8|
                    i < octant + 1 && 1 < #[trigger] octant_of(origin, range, i).a() implies col_lit(
                    octant_of(origin, range, i),
                    lit@,
                    n0,
                    1,
                    -1,
                    1,
                ) by {
                    let oi = octant_of(origin, range, i);
                    if i < octant {
                        lemma_col_grow(oi, before, lit@, n0, 1, -1, 1);
                    } else {
                        lemma_col_weaken(oi, lit@, before.len() as int, n0, 1, -1, 1);
                    }
                }
            }
            if walled {
                lemma_wall_octant(o, is_opaque, wk);
                assert forall|j: int| n0 <= j < lit@.len() implies (#[trigger] lit@[j]).x <= origin.x + wk by {
                    if j >= before.len() {
                        if o.index == 0 || o.index == 7 {
                            lemma_placed_x(o, lit@[j], wk, o.b(), wk);
                        } else if o.index == 2 || o.index == 5 {
                            lemma_placed_x(o, lit@[j], o.a(), wk, wk);
                        } else {
                            lemma_placed_x(o, lit@[j], o.a(), o.b(), wk);
                        }
                    } else {
                        assert(lit@[j] == before[j]);
                    }
                }
                let facing = Point { x: (origin.x + wk) as i64, y: origin.y };
                if octant == 0 {
                    assert(o.to_map(wk, 0) == facing);
                    assert(o.a() == range.x);
                    lemma_row_zero_inside(o, wk);
                    assert(col_lit(o, lit@, before.len() as int, wk, -1, wk));
                    assert(o.inside(wk, 0));
                    assert(lit_since(lit@, before.len() as int, o.to_map(wk, 0)));
                    lemma_lit_since_weaken(lit@, before.len() as int, n0, facing);
                } else {
                    lemma_lit_since_grow(before, lit@, n0, facing);
                }
            }
            if clear_view(is_opaque, origin, range) {
                assert forall|i: u8| i < octant + 1 implies #[trigger] cols_lit(
                    octant_of(origin, range, i),
                    lit@,
                    n0,
                    1,
                    octant_of(origin, range, i).a() + 1,
                ) by {
                    let oi = octant_of(origin, range, i);
                    if i < octant {
                        lemma_cols_grow(oi, before, lit@, n0, 1, oi.a() + 1);
                    } else {
                        lemma_cols_weaken(oi, lit@, before.len() as int, n0, 1, oi.a() + 1);
                    }
                }
            }
        }
        octant = octant + 1;
    }
    proof {
        if dark {
            assert forall|p: Point|
                lit_since(lit@, n0, p) <==> (p == origin || (crate::geo::adjacent(p, origin)
                    && in_view(origin, range, p))) by {
                if lit_since(lit@, n0, p) {
                    let j = choose|j: int| 0 <= j && n0 <= j < lit@.len() && lit@[j] == p;
                    if j > n0 {
                        assert(crate::geo::adjacent(lit@[j], origin));
                        assert(in_view(origin, range, lit@[j]));
                    }
                }
                if p == origin {
                    assert(lit@[n0] == origin);
                } else if crate::geo::adjacent(p, origin) && in_view(origin, range, p) {
                    let (i, xx, yy) = lemma_covered(origin, range, p);
                    let oi = octant_of(origin, range, i);
                    assert(xx == 1);
                    lemma_in_view_inside(oi, xx, yy);
                    lemma_inside_bounds(oi.a(), oi.b(), xx, yy);
                    assert(col_lit(oi, lit@, n0, 1, -1, 1));
                    assert(oi.to_map(1, yy) == p);
                }
            }
        }
        assert forall|k: int| 1 <= k < range.x && #[trigger] wall_at(is_opaque, origin.x + k) implies (forall|j: int|
            n0 <= j < lit@.len() ==> (#[trigger] lit@[j]).x <= origin.x + k) && lit_since(
            lit@,
            n0,
            Point { x: (origin.x + k) as i64, y: origin.y },
        ) by {
            assert(walled);
            assert(k == wk);
        }
        if clear_view(is_opaque, origin, range) {
            assert forall|p: Point| in_view(origin, range, p) implies lit_since(lit@, n0, p) by {
                if p == origin {
                    assert(lit@[n0] == origin);
                } else {
                    lemma_inside_bounds(
                        range.x as int,
                        range.y as int,
                        p.x - origin.x,
                        p.y - origin.y,
                    );
                    let (i, xx, yy) = lemma_covered(origin, range, p);
                    let oi = octant_of(origin, range, i);
                    lemma_in_view_inside(oi, xx, yy);
                    lemma_inside_bounds(oi.a(), oi.b(), xx, yy);
                    assert(cols_lit(oi, lit@, n0, 1, oi.a() + 1));
                    assert(oi.to_map(xx, yy) == p);
                }
            }
        }
    }
}

} // verus!
