//! Points, axis-aligned rectangles and circles on the integer plane.
use vstd::prelude::*;

verus! {

/// A point of the plane.
#[derive(Clone, Copy, Debug, PartialEq, Eq, Structural)]
pub struct Point {
    pub x: i32,
    pub y: i32,
}

impl Point {
    pub fn new(x: i32, y: i32) -> (p: Point)
        ensures
            p.x == x,
            p.y == y,
    {
        Point { x, y }
    }
}

/// An axis-aligned rectangle given by its center `(x, y)` and its
/// half-extents `w` and `h` (half the width, half the height).
#[derive(Clone, Copy, Debug, PartialEq, Eq, Structural)]
pub struct Rectangle {
    pub x: i32,
    pub y: i32,
    pub w: u32,
    pub h: u32,
}

impl Rectangle {
    pub fn new(x: i32, y: i32, w: u32, h: u32) -> (r: Rectangle)
        ensures
            r.x == x,
            r.y == y,
            r.w == w,
            r.h == h,
    {
        Rectangle { x, y, w, h }
    }

    /// Half-open on both axes: the west and north edges belong to the
    /// rectangle, the east and south edges do not.
    pub open spec fn covers(self, p: Point) -> bool {
        &&& self.x - self.w <= p.x
        &&& p.x < self.x + self.w
        &&& self.y - self.h <= p.y
        &&& p.y < self.y + self.h
    }

    /// Every edge of the rectangle is itself a representable coordinate.
    pub open spec fn fits(self) -> bool {
        &&& i32::MIN <= self.x - self.w
        &&& self.x + self.w <= i32::MAX
        &&& i32::MIN <= self.y - self.h
        &&& self.y + self.h <= i32::MAX
    }
}

/// A half-open box `[x0, x1) x [y0, y1)` of the integer plane: the region a
/// quadtree node is responsible for.
#[derive(Clone, Copy, Debug, PartialEq, Eq, Structural)]
pub struct Region {
    pub x0: i32,
    pub x1: i32,
    pub y0: i32,
    pub y1: i32,
}

impl Region {
    pub open spec fn ordered(self) -> bool {
        self.x0 <= self.x1 && self.y0 <= self.y1
    }

    pub open spec fn covers(self, p: Point) -> bool {
        &&& self.x0 <= p.x
        &&& p.x < self.x1
        &&& self.y0 <= p.y
        &&& p.y < self.y1
    }

    /// The region of a rectangle: `[x - w, x + w) x [y - h, y + h)`.
    pub open spec fn of(r: Rectangle) -> Region {
        Region {
            x0: (r.x - r.w) as i32,
            x1: (r.x + r.w) as i32,
            y0: (r.y - r.h) as i32,
            y1: (r.y + r.h) as i32,
        }
    }

    /// Where the region splits: its midpoint, rounded down.
    pub open spec fn mid_x(self) -> int {
        self.x0 + (self.x1 - self.x0) / 2
    }

    pub open spec fn mid_y(self) -> int {
        self.y0 + (self.y1 - self.y0) / 2
    }

    /// One of the four quadrants, split at the midpoint: the western part
    /// ends where the eastern begins, and the northern where the southern.
    pub open spec fn quadrant(self, east: bool, south: bool) -> Region {
        Region {
            x0: if east { self.mid_x() as i32 } else { self.x0 },
            x1: if east { self.x1 } else { self.mid_x() as i32 },
            y0: if south { self.mid_y() as i32 } else { self.y0 },
            y1: if south { self.y1 } else { self.mid_y() as i32 },
        }
    }

    /// The quadrant that holds a point: east iff it is right of the split,
    /// south iff it is below it.
    pub open spec fn quadrant_of(self, p: Point) -> (bool, bool) {
        (p.x >= self.mid_x(), p.y >= self.mid_y())
    }

    /// The smallest center and half-extent rectangle that holds the region;
    /// it is the region itself when both sides have even length.
    pub open spec fn bounds(self) -> Rectangle {
        let cw = (self.x1 - self.x0 + 1) / 2;
        let ch = (self.y1 - self.y0 + 1) / 2;
        Rectangle { x: (self.x0 + cw) as i32, y: (self.y0 + ch) as i32, w: cw as u32, h: ch as u32 }
    }

    pub fn from_rectangle(r: &Rectangle) -> (g: Region)
        requires
            r.fits(),
        ensures
            g == Region::of(*r),
            g.ordered(),
            g.bounds() == *r,
    {
        let x = r.x as i64;
        let y = r.y as i64;
        let w = r.w as i64;
        let h = r.h as i64;
        Region { x0: (x - w) as i32, x1: (x + w) as i32, y0: (y - h) as i32, y1: (y + h) as i32 }
    }

    pub fn split(&self, east: bool, south: bool) -> (q: Region)
        requires
            self.ordered(),
        ensures
            q == self.quadrant(east, south),
            q.ordered(),
    {
        let mx = (self.x0 as i64 + (self.x1 as i64 - self.x0 as i64) / 2) as i32;
        let my = (self.y0 as i64 + (self.y1 as i64 - self.y0 as i64) / 2) as i32;
        Region {
            x0: if east { mx } else { self.x0 },
            x1: if east { self.x1 } else { mx },
            y0: if south { my } else { self.y0 },
            y1: if south { self.y1 } else { my },
        }
    }

    pub fn bounding_rectangle(&self) -> (r: Rectangle)
        requires
            self.ordered(),
        ensures
            r == self.bounds(),
    {
        let cw = (self.x1 as i64 - self.x0 as i64 + 1) / 2;
        let ch = (self.y1 as i64 - self.y0 as i64 + 1) / 2;
        Rectangle {
            x: (self.x0 as i64 + cw) as i32,
            y: (self.y0 as i64 + ch) as i32,
            w: cw as u32,
            h: ch as u32,
        }
    }

    pub fn contains(&self, p: &Point) -> (b: bool)
        ensures
            b == self.covers(*p),
    {
        self.x0 <= p.x && p.x < self.x1 && self.y0 <= p.y && p.y < self.y1
    }
}

/// A rectangle's region holds exactly the points the rectangle contains.
pub proof fn lemma_region_of_rectangle(r: Rectangle, p: Point)
    requires
        r.fits(),
    ensures
        Region::of(r).covers(p) == r.covers(p),
        Region::of(r).ordered(),
{
}

/// A point of a region lies in the region's bounding rectangle.
pub proof fn lemma_bounds_cover(g: Region, p: Point)
    requires
        g.ordered(),
        g.covers(p),
    ensures
        g.bounds().covers(p),
{
}

/// The four quadrants of a region split it exactly: each point of the
/// region lies in the quadrant `quadrant_of` names and in no other, and no
/// point outside the region lies in any quadrant.
pub proof fn lemma_quadrants_tile(g: Region, p: Point)
    requires
        g.ordered(),
    ensures
        forall|east: bool, south: bool| #[trigger] g.quadrant(east, south).ordered(),
        forall|east: bool, south: bool|
            #[trigger] g.quadrant(east, south).covers(p) <==> (g.covers(p) && g.quadrant_of(p) == (
            east,
            south,
        )),
{
}

/// For a rectangle with even half-extents the quadrants are the rectangles
/// of half the half-extents centered at `(x -+ w/2, y -+ h/2)`.
pub proof fn lemma_even_quadrant_centers(r: Rectangle, east: bool, south: bool)
    requires
        r.fits(),
        r.w % 2 == 0,
        r.h % 2 == 0,
    ensures
        Region::of(r).quadrant(east, south).bounds() == (Rectangle {
            x: (if east { r.x + r.w / 2 } else { r.x - r.w / 2 }) as i32,
            y: (if south { r.y + r.h / 2 } else { r.y - r.h / 2 }) as i32,
            w: r.w / 2,
            h: r.h / 2,
        }),
{
}

/// A circle with center `(x, y)` and radius `r`; `r_squared` caches `r * r`.
#[derive(Clone, Copy, Debug, PartialEq, Eq, Structural)]
pub struct Circle {
    pub x: i32,
    pub y: i32,
    pub r: u32,
    pub r_squared: u64,
}

impl Circle {
    pub fn new(x: i32, y: i32, r: u32) -> (c: Circle)
        ensures
            c.x == x,
            c.y == y,
            c.r == r,
            c.r_squared == r * r,
            c.valid(),
    {
        assert(r as int * r as int <= u32::MAX as int * u32::MAX as int) by (nonlinear_arith);
        let r_squared = (r as u64) * (r as u64);
        Circle { x, y, r, r_squared }
    }
}

/// Squared Euclidean distance between two points given by coordinates.
pub open spec fn dist_sq(ax: int, ay: int, bx: int, by: int) -> int {
    (ax - bx) * (ax - bx) + (ay - by) * (ay - by)
}

pub open spec fn abs(v: int) -> int {
    if v < 0 { -v } else { v }
}

/// A query region: it can tell whether it holds a point, and whether it
/// may overlap a rectangle.
pub trait Shape {
    /// The shape's own invariant.
    spec fn valid(&self) -> bool;

    /// The point lies inside the shape.
    spec fn contains_spec(&self, p: Point) -> bool;

    /// The shape may overlap the rectangle.
    spec fn intersects_spec(&self, r: Rectangle) -> bool;

    /// A shape that holds a point of a rectangle reports that it overlaps
    /// the rectangle, so that skipping rectangles it does not overlap loses
    /// no point.
    proof fn lemma_intersects_if_shared(&self, r: Rectangle, p: Point)
        requires
            self.valid(),
            r.covers(p),
            self.contains_spec(p),
        ensures
            self.intersects_spec(r),
    ;

    fn contains(&self, other: &Point) -> (b: bool)
        ensures
            b == self.contains_spec(*other),
    ;

    fn intersects(&self, other: &Rectangle) -> (b: bool)
        ensures
            b == self.intersects_spec(*other),
    ;
}

impl Shape for Rectangle {
    open spec fn valid(&self) -> bool {
        true
    }

    open spec fn contains_spec(&self, p: Point) -> bool {
        self.covers(p)
    }

    /// Touching edges count as overlapping.
    open spec fn intersects_spec(&self, r: Rectangle) -> bool {
        !(r.x - r.w > self.x + self.w || r.x + r.w < self.x - self.w || r.y - r.h > self.y
            + self.h || r.y + r.h < self.y - self.h)
    }

    proof fn lemma_intersects_if_shared(&self, r: Rectangle, p: Point) {
    }

    fn contains(&self, other: &Point) -> (b: bool) {
        let px = other.x as i64;
        let py = other.y as i64;
        let x = self.x as i64;
        let y = self.y as i64;
        let w = self.w as i64;
        let h = self.h as i64;
        px >= x - w && px < x + w && py >= y - h && py < y + h
    }

    fn intersects(&self, other: &Rectangle) -> (b: bool) {
        let (ax, ay, aw, ah) = (self.x as i64, self.y as i64, self.w as i64, self.h as i64);
        let (bx, by, bw, bh) = (other.x as i64, other.y as i64, other.w as i64, other.h as i64);
        !(bx - bw > ax + aw || bx + bw < ax - aw || by - bh > ay + ah || by + bh < ay - ah)
    }
}

impl Shape for Circle {
    open spec fn valid(&self) -> bool {
        self.r_squared == self.r * self.r
    }

    /// Strictly closer to the center than the radius: a point at distance
    /// exactly `r` is outside.
    open spec fn contains_spec(&self, p: Point) -> bool {
        dist_sq(p.x as int, p.y as int, self.x as int, self.y as int) < self.r_squared
    }

    /// The three-step test of a circle against a rectangle: too far on an
    /// axis, no overlap; the center's projection within the rectangle's
    /// span on an axis, overlap; otherwise overlap iff the nearest corner is
    /// within the radius.
    open spec fn intersects_spec(&self, r: Rectangle) -> bool {
        let xd = abs(r.x - self.x);
        let yd = abs(r.y - self.y);
        if xd > self.r + r.w || yd > self.r + r.h {
            false
        } else if xd <= r.w || yd <= r.h {
            true
        } else {
            (xd - r.w) * (xd - r.w) + (yd - r.h) * (yd - r.h) <= self.r_squared
        }
    }

    proof fn lemma_intersects_if_shared(&self, r: Rectangle, p: Point) {
        let xd = abs(r.x - self.x);
        let yd = abs(r.y - self.y);
        // distance from the point to the center along each axis
        let px = abs(p.x - self.x);
        let py = abs(p.y - self.y);
        assert(px >= xd - r.w);
        assert(py >= yd - r.h);
        assert(px * px == (p.x - self.x) * (p.x - self.x)) by (nonlinear_arith)
            requires px == abs(p.x - self.x);
        assert(py * py == (p.y - self.y) * (p.y - self.y)) by (nonlinear_arith)
            requires py == abs(p.y - self.y);
        assert(px * px + py * py < self.r * self.r);
        if xd > self.r + r.w {
            assert(px * px > self.r * self.r) by (nonlinear_arith)
                requires px > self.r, self.r >= 0;
            assert(py * py >= 0) by (nonlinear_arith);
        } else if yd > self.r + r.h {
            assert(py * py > self.r * self.r) by (nonlinear_arith)
                requires py > self.r, self.r >= 0;
            assert(px * px >= 0) by (nonlinear_arith);
        } else if xd <= r.w || yd <= r.h {
        } else {
            let a = xd - r.w;
            let b = yd - r.h;
            assert(a * a <= px * px) by (nonlinear_arith)
                requires 0 < a <= px;
            assert(b * b <= py * py) by (nonlinear_arith)
                requires 0 < b <= py;
        }
    }

    fn contains(&self, other: &Point) -> (b: bool) {
        let dx = other.x as i64 - self.x as i64;
        let dy = other.y as i64 - self.y as i64;
        proof {
            lemma_square_bound(dx as int);
            lemma_square_bound(dy as int);
        }
        let dx = dx as i128;
        let dy = dy as i128;
        dx * dx + dy * dy < self.r_squared as i128
    }

    fn intersects(&self, other: &Rectangle) -> (b: bool) {
        let xd = abs_i64(other.x as i64 - self.x as i64);
        let yd = abs_i64(other.y as i64 - self.y as i64);
        let r = self.r as i64;
        let w = other.w as i64;
        let h = other.h as i64;
        if xd > r + w || yd > r + h {
            return false;
        }
        if xd <= w || yd <= h {
            return true;
        }
        let ex = (xd - w) as i128;
        let ey = (yd - h) as i128;
        proof {
            lemma_square_bound(ex as int);
            lemma_square_bound(ey as int);
        }
        ex * ex + ey * ey <= self.r_squared as i128
    }
}

/// Whether two rectangles overlap does not depend on which one asks.
pub proof fn lemma_intersects_symmetric(a: Rectangle, b: Rectangle)
    ensures
        a.intersects_spec(b) == b.intersects_spec(a),
{
}

/// A point at distance exactly `r` from a circle's center is not in the
/// circle.
pub proof fn lemma_circle_rim_excluded(c: Circle, p: Point)
    requires
        c.valid(),
        dist_sq(p.x as int, p.y as int, c.x as int, c.y as int) == c.r * c.r,
    ensures
        !c.contains_spec(p),
{
}

fn abs_i64(v: i64) -> (r: i64)
    requires
        v > i64::MIN,
    ensures
        r == abs(v as int),
{
    if v < 0 {
        -v
    } else {
        v
    }
}

proof fn lemma_square_bound(v: int)
    requires
        -0x1_0000_0000 <= v <= 0x1_0000_0000,
    ensures
        0 <= v * v <= 0x1_0000_0000_0000_0000,
{
    assert(0 <= v * v <= 0x1_0000_0000_0000_0000) by (nonlinear_arith)
        requires
            -0x1_0000_0000 <= v <= 0x1_0000_0000,
    ;
}

} // verus!
