//! Rays, the line they lie on, and what a ray makes of the place where that
//! line cuts a body.

use vstd::prelude::*;

verus! {

/// `root` is the square root of `n`, rounded down.
pub open spec fn is_floor_sqrt(n: int, root: int) -> bool {
    0 <= root && root * root <= n < (root + 1) * (root + 1)
}

/// The square root of `n`, rounded down.
pub open spec fn floor_sqrt(n: int) -> int {
    choose|root: int| is_floor_sqrt(n, root)
}

/// A number has at most one rounded-down square root.
pub proof fn lemma_floor_sqrt_unique(n: int, r1: int, r2: int)
    requires
        is_floor_sqrt(n, r1),
        is_floor_sqrt(n, r2),
    ensures
        r1 == r2,
{
    if r1 < r2 {
        assert((r1 + 1) * (r1 + 1) <= r2 * r2) by (nonlinear_arith)
            requires
                0 <= r1,
                r1 + 1 <= r2,
        ;
    } else if r2 < r1 {
        assert((r2 + 1) * (r2 + 1) <= r1 * r1) by (nonlinear_arith)
            requires
                0 <= r2,
                r2 + 1 <= r1,
        ;
    }
}

/// Computes the square root of `n`, rounded down, by bisection.
pub fn isqrt(n: u128) -> (root: u64)
    ensures
        root == floor_sqrt(n as int),
        is_floor_sqrt(n as int, root as int),
{
    let mut lo: u128 = 0;
    let mut hi: u128 = 0x1_0000_0000_0000_0000;
    assert(0x1_0000_0000_0000_0000int * 0x1_0000_0000_0000_0000int
        == 0x1_0000_0000_0000_0000_0000_0000_0000_0000int) by (nonlinear_arith);
    while hi - lo > 1
        invariant
            lo < hi <= 0x1_0000_0000_0000_0000,
            lo * lo <= n < hi * hi,
        decreases hi - lo,
    {
        let mid: u128 = lo + (hi - lo) / 2;
        assert(mid * mid < 0x1_0000_0000_0000_0000_0000_0000_0000_0000) by (nonlinear_arith)
            requires
                0 <= mid < 0x1_0000_0000_0000_0000,
        ;
        let square: u128 = mid * mid;
        if square <= n {
            lo = mid;
        } else {
            hi = mid;
        }
    }
    proof {
        assert(is_floor_sqrt(n as int, lo as int));
        lemma_floor_sqrt_unique(n as int, lo as int, floor_sqrt(n as int));
    }
    lo as u64
}

/// Distance between two points, rounded down to a whole number.
pub open spec fn distance(x0: int, y0: int, x: int, y: int) -> int {
    floor_sqrt((x - x0) * (x - x0) + (y - y0) * (y - y0))
}

/// Computes the rounded-down distance between two points.
pub fn distance_between(x0: i32, y0: i32, x: i32, y: i32) -> (d: i64)
    ensures
        d == distance(x0 as int, y0 as int, x as int, y as int),
        0 <= d < 0x2_0000_0000,
{
    let dx: i128 = x as i128 - x0 as i128;
    let dy: i128 = y as i128 - y0 as i128;
    assert(0 <= dx * dx < 0x1_0000_0000_0000_0000) by (nonlinear_arith)
        requires
            -0x1_0000_0000 < dx < 0x1_0000_0000,
    ;
    assert(0 <= dy * dy < 0x1_0000_0000_0000_0000) by (nonlinear_arith)
        requires
            -0x1_0000_0000 < dy < 0x1_0000_0000,
    ;
    let sum: u128 = (dx * dx + dy * dy) as u128;
    let root = isqrt(sum);
    assert(root < 0x2_0000_0000) by (nonlinear_arith)
        requires
            root * root <= sum,
            sum < 0x2_0000_0000_0000_0000,
    ;
    root as i64
}

/// The line `a * x + b * y + c = 0`.
#[derive(Clone, Copy, Debug, PartialEq, Eq, Structural)]
pub struct Line {
    pub a: i64,
    pub b: i64,
    pub c: i128,
}

impl Line {
    /// The point `(x, y)` lies on the line.
    pub open spec fn holds(self, x: int, y: int) -> bool {
        self.a * x + self.b * y + self.c == 0
    }
}

/// A ray: the segment from the origin `(x0, y0)` to the end `(x1, y1)`.
#[derive(Clone, Copy, Debug, PartialEq, Eq, Structural)]
pub struct Ray {
    pub x0: i32,
    pub y0: i32,
    pub x1: i32,
    pub y1: i32,
}

impl Ray {
    /// The ray runs toward lower `x`.
    pub open spec fn leftward(self) -> bool {
        self.x1 < self.x0
    }

    /// Lowest `x` on the ray.
    pub open spec fn line_start(self) -> int {
        if self.x0 <= self.x1 {
            self.x0 as int
        } else {
            self.x1 as int
        }
    }

    /// Highest `x` on the ray.
    pub open spec fn line_end(self) -> int {
        if self.x0 <= self.x1 {
            self.x1 as int
        } else {
            self.x0 as int
        }
    }

    /// Lowest `x` of the part of the ray inside the column of cells `cell_x`.
    pub open spec fn segment_start(self, cell_x: int, unit: int) -> int {
        if cell_x * unit >= self.line_start() {
            cell_x * unit
        } else {
            self.line_start()
        }
    }

    /// Highest `x` of the part of the ray inside the column of cells `cell_x`.
    pub open spec fn segment_end(self, cell_x: int, unit: int) -> int {
        if (cell_x + 1) * unit <= self.line_end() {
            (cell_x + 1) * unit
        } else {
            self.line_end()
        }
    }

    /// The line through the origin and the end. A horizontal ray gives
    /// `y = y0` in the form `(0, 1, -y0)`; any other ray gives
    /// `(dy, -dx, dx * y0 - dy * x0)` for its direction `(dx, dy)`.
    pub open spec fn spec_line(self) -> Line {
        if self.y1 == self.y0 {
            Line { a: 0, b: 1, c: (-self.y0) as i128 }
        } else {
            let dx = self.x1 - self.x0;
            let dy = self.y1 - self.y0;
            Line { a: dy as i64, b: (-dx) as i64, c: (dx * self.y0 - dy * self.x0) as i128 }
        }
    }

    pub fn new(x0: i32, y0: i32, x1: i32, y1: i32) -> (ray: Ray)
        ensures
            ray == (Ray { x0, y0, x1, y1 }),
    {
        Ray { x0, y0, x1, y1 }
    }

    /// Computes the line that the ray lies on.
    pub fn line(&self) -> (line: Line)
        ensures
            line == self.spec_line(),
            line.holds(self.x0 as int, self.y0 as int),
            line.holds(self.x1 as int, self.y1 as int),
            line.a != 0 || line.b != 0,
    {
        if self.y1 == self.y0 {
            Line { a: 0, b: 1, c: -(self.y0 as i128) }
        } else {
            let dx: i64 = self.x1 as i64 - self.x0 as i64;
            let dy: i64 = self.y1 as i64 - self.y0 as i64;
            assert(-0x8000_0000_0000_0000 < dx * self.y0 < 0x8000_0000_0000_0000) by (nonlinear_arith)
                requires
                    -0x1_0000_0000 < dx < 0x1_0000_0000,
                    -0x8000_0000 <= self.y0 < 0x8000_0000,
            ;
            assert(-0x8000_0000_0000_0000 < dy * self.x0 < 0x8000_0000_0000_0000) by (nonlinear_arith)
                requires
                    -0x1_0000_0000 < dy < 0x1_0000_0000,
                    -0x8000_0000 <= self.x0 < 0x8000_0000,
            ;
            let c: i128 = (dx as i128) * (self.y0 as i128) - (dy as i128) * (self.x0 as i128);
            let line = Line { a: dy, b: -dx, c };
            assert(line.holds(self.x0 as int, self.y0 as int)) by (nonlinear_arith)
                requires
                    line.a == dy,
                    line.b == -dx,
                    line.c == dx * self.y0 - dy * self.x0,
            ;
            assert(line.holds(self.x1 as int, self.y1 as int)) by (nonlinear_arith)
                requires
                    line.a == dy,
                    line.b == -dx,
                    line.c == dx * self.y0 - dy * self.x0,
                    dx == self.x1 - self.x0,
                    dy == self.y1 - self.y0,
            ;
            line
        }
    }

    /// Computes the bounds along `x` of the part of the ray inside the column
    /// of cells `cell_x`.
    pub fn segment(&self, cell_x: i32, unit: u32) -> (bounds: (i64, i64))
        ensures
            bounds.0 == self.segment_start(cell_x as int, unit as int),
            bounds.1 == self.segment_end(cell_x as int, unit as int),
    {
        assert(-0x8000_0000_0000_0000 < cell_x * unit < 0x8000_0000_0000_0000) by (nonlinear_arith)
            requires
                -0x8000_0000 <= cell_x < 0x8000_0000,
                0 <= unit < 0x1_0000_0000,
        ;
        assert(-0x8000_0000_0000_0000 < (cell_x + 1) * unit < 0x8000_0000_0000_0000)
            by (nonlinear_arith)
            requires
                -0x8000_0000 <= cell_x < 0x8000_0000,
                0 <= unit < 0x1_0000_0000,
        ;
        let left: i64 = (cell_x as i64) * (unit as i64);
        let right: i64 = (cell_x as i64 + 1) * (unit as i64);
        let (line_start, line_end) = if self.x0 <= self.x1 {
            (self.x0 as i64, self.x1 as i64)
        } else {
            (self.x1 as i64, self.x0 as i64)
        };
        (
            if left >= line_start {
                left
            } else {
                line_start
            },
            if right <= line_end {
                right
            } else {
                line_end
            },
        )
    }
}

/// Where a line cuts a body: the two end points of the cut, the one with the
/// lower `x` first.
#[derive(Clone, Copy, Debug, PartialEq, Eq, Structural)]
pub struct Intersection {
    pub x_min: i32,
    pub y_min: i32,
    pub x_max: i32,
    pub y_max: i32,
}

/// A body that a ray hits. `near` is the distance from the origin to the
/// closer end of the cut, negated where that end lies outside the part of the
/// ray in the cell where the hit was found; `far` is the distance to the
/// other end.
#[derive(Clone, Copy, Debug, PartialEq, Eq, Structural)]
pub struct RayHit {
    pub id: usize,
    pub near: i64,
    pub far: i64,
}

impl Intersection {
    /// The cut reaches into the part `start..=end` of the ray.
    pub open spec fn meets(self, start: int, end: int) -> bool {
        start <= self.x_max && self.x_min <= end
    }

    /// Distances, as `(near, far)`, from the origin of `ray` to the cut, seen
    /// from a cell whose part of the ray spans `start..=end`; `None` where
    /// the cut does not reach into that part.
    ///
    /// On a ray that runs leftward the end with the higher `x` is the closer
    /// one, and the near distance is negated if that end lies beyond `end`.
    /// On any other ray the end with the lower `x` is the closer one, and the
    /// near distance is negated if that end lies before `start`.
    pub open spec fn seen_from(self, ray: Ray, start: int, end: int) -> Option<(int, int)> {
        let at_min = distance(ray.x0 as int, ray.y0 as int, self.x_min as int, self.y_min as int);
        let at_max = distance(ray.x0 as int, ray.y0 as int, self.x_max as int, self.y_max as int);
        if !self.meets(start, end) {
            None
        } else if ray.leftward() {
            Some((if self.x_max > end { -at_max } else { at_max }, at_min))
        } else {
            Some((if self.x_min < start { -at_min } else { at_min }, at_max))
        }
    }

    /// Computes the near and far distances of the cut as `seen_from` defines
    /// them.
    pub fn classify(&self, ray: &Ray, start: i64, end: i64) -> (keys: Option<(i64, i64)>)
        ensures
            match self.seen_from(*ray, start as int, end as int) {
                Some((near, far)) => keys == Some((near as i64, far as i64)) && near == near as i64
                    && far == far as i64,
                None => keys.is_none(),
            },
    {
        if !(start <= self.x_max as i64 && self.x_min as i64 <= end) {
            return None;
        }
        let at_min = distance_between(ray.x0, ray.y0, self.x_min, self.y_min);
        let at_max = distance_between(ray.x0, ray.y0, self.x_max, self.y_max);
        if ray.x1 < ray.x0 {
            Some((if self.x_max as i64 > end { -at_max } else { at_max }, at_min))
        } else {
            Some((if (self.x_min as i64) < start { -at_min } else { at_min }, at_max))
        }
    }
}

} // verus!
