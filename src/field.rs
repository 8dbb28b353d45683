use vstd::prelude::*;

use crate::geom::{abs_int, pt_ok, within, Point2, COORD_BOUND, VAL_BOUND};

verus! {

/// `s` is the integer square root of `n`, rounded down.
pub open spec fn is_floor_sqrt(n: int, s: int) -> bool {
    0 <= s && s * s <= n && n < (s + 1) * (s + 1)
}

pub open spec fn floor_sqrt(n: int) -> int {
    choose|s: int| is_floor_sqrt(n, s)
}

/// The integer square root of `n`, rounded up.
pub open spec fn ceil_sqrt(n: int) -> int {
    if floor_sqrt(n) * floor_sqrt(n) == n { floor_sqrt(n) } else { floor_sqrt(n) + 1 }
}

pub open spec fn sq(v: int) -> int {
    v * v
}

pub open spec fn pos_part(v: int) -> int {
    if v > 0 { v } else { 0 }
}

pub open spec fn min_int(a: int, b: int) -> int {
    if a <= b { a } else { b }
}

pub open spec fn max_int(a: int, b: int) -> int {
    if a >= b { a } else { b }
}

/// Squared distance between two points.
pub open spec fn dist2(p: Point2, q: Point2) -> int {
    sq(p.x - q.x) + sq(p.y - q.y)
}

/// Signed distance to a circle: the Euclidean distance to the center minus the
/// radius, rounded to a whole unit away from the boundary, so that its sign is exact.
pub open spec fn circle_value(d2: int, r: int) -> int {
    if d2 <= r * r { floor_sqrt(d2) - r } else { ceil_sqrt(d2) - r }
}

/// Signed distance to a box, from the per-axis excess `dx`, `dy` of the point
/// over the half extents: the larger excess inside, the rounded-up Euclidean
/// length of the positive excesses outside.
pub open spec fn rect_value(dx: int, dy: int) -> int {
    if dx <= 0 && dy <= 0 {
        max_int(dx, dy)
    } else {
        ceil_sqrt(sq(pos_part(dx)) + sq(pos_part(dy)))
    }
}

/// A CSG tree of signed-distance primitives: negative inside, positive outside.
#[derive(Debug)]
pub enum DenFn2 {
    Circle { center: Point2, radius: i64 },
    Rectangle { center: Point2, half: Point2 },
    Union(Box<DenFn2>, Box<DenFn2>),
    Difference(Box<DenFn2>, Box<DenFn2>),
}

impl DenFn2 {
    /// All centers, radii and half extents lie within the coordinate bound;
    /// radii and half extents are non-negative.
    pub open spec fn wf(&self) -> bool
        decreases self,
    {
        match self {
            DenFn2::Circle { center, radius } => pt_ok(*center) && 0 <= *radius <= COORD_BOUND,
            DenFn2::Rectangle { center, half } => pt_ok(*center) && 0 <= half.x <= COORD_BOUND
                && 0 <= half.y <= COORD_BOUND,
            DenFn2::Union(a, b) => a.wf() && b.wf(),
            DenFn2::Difference(a, b) => a.wf() && b.wf(),
        }
    }

    /// The field value at `p`.
    pub open spec fn eval(&self, p: Point2) -> int
        decreases self,
    {
        match self {
            DenFn2::Circle { center, radius } => circle_value(dist2(p, *center), *radius as int),
            DenFn2::Rectangle { center, half } => rect_value(
                abs_int(p.x - center.x) - half.x,
                abs_int(p.y - center.y) - half.y,
            ),
            DenFn2::Union(a, b) => min_int(a.eval(p), b.eval(p)),
            DenFn2::Difference(a, b) => max_int(a.eval(p), -b.eval(p)),
        }
    }

    /// The field value at `p`, exactly as `eval` states it.
    pub fn evaluate(&self, p: Point2) -> (r: i64)
        requires
            self.wf(),
            within(p, 2 * COORD_BOUND),
        ensures
            r == self.eval(p),
            abs_int(r as int) <= VAL_BOUND,
        decreases self,
    {
        match self {
            DenFn2::Circle { center, radius } => {
                let dx = p.x - center.x;
                let dy = p.y - center.y;
                proof {
                    lemma_sq_bound(dx as int, 3 * COORD_BOUND);
                    lemma_sq_bound(dy as int, 3 * COORD_BOUND);
                    lemma_sq_bound(*radius as int, COORD_BOUND as int);
                }
                let d2 = dx * dx + dy * dy;
                let s = floor_sqrt_exec(d2);
                if d2 <= *radius * *radius {
                    s - *radius
                } else {
                    proof {
                        lemma_sqrt_order(d2 as int, s as int, *radius as int);
                    }
                    if s * s == d2 { s - *radius } else { s + 1 - *radius }
                }
            },
            DenFn2::Rectangle { center, half } => {
                let ax = if p.x >= center.x { p.x - center.x } else { center.x - p.x };
                let ay = if p.y >= center.y { p.y - center.y } else { center.y - p.y };
                let dx = ax - half.x;
                let dy = ay - half.y;
                if dx <= 0 && dy <= 0 {
                    if dx >= dy { dx } else { dy }
                } else {
                    let px = if dx > 0 { dx } else { 0 };
                    let py = if dy > 0 { dy } else { 0 };
                    proof {
                        lemma_sq_bound(px as int, 3 * COORD_BOUND);
                        lemma_sq_bound(py as int, 3 * COORD_BOUND);
                    }
                    let n = px * px + py * py;
                    let s = floor_sqrt_exec(n);
                    if s * s == n { s } else { s + 1 }
                }
            },
            DenFn2::Union(a, b) => {
                let va = a.evaluate(p);
                let vb = b.evaluate(p);
                if va <= vb { va } else { vb }
            },
            DenFn2::Difference(a, b) => {
                let va = a.evaluate(p);
                let vb = b.evaluate(p);
                if va >= -vb { va } else { -vb }
            },
        }
    }
}

/// A circle primitive.
pub fn mk_circle2(center: Point2, radius: i64) -> (r: DenFn2)
    ensures
        r == (DenFn2::Circle { center, radius }),
{
    DenFn2::Circle { center, radius }
}

/// A box primitive with the given half extents.
pub fn mk_rectangle2(center: Point2, half: Point2) -> (r: DenFn2)
    ensures
        r == (DenFn2::Rectangle { center, half }),
{
    DenFn2::Rectangle { center, half }
}

/// The region covered by either operand.
pub fn union(a: DenFn2, b: DenFn2) -> (r: DenFn2)
    ensures
        r == DenFn2::Union(Box::new(a), Box::new(b)),
{
    DenFn2::Union(Box::new(a), Box::new(b))
}

/// The region of `a` with the region of `b` cut out.
pub fn difference(a: DenFn2, b: DenFn2) -> (r: DenFn2)
    ensures
        r == DenFn2::Difference(Box::new(a), Box::new(b)),
{
    DenFn2::Difference(Box::new(a), Box::new(b))
}

/// A circle's field is negative at every point closer to the center than the
/// radius and positive at every point farther away.
pub proof fn lemma_circle_sign(center: Point2, radius: i64, p: Point2)
    requires
        0 <= radius,
    ensures
        dist2(p, center) < radius * radius ==> (DenFn2::Circle { center, radius }).eval(p) < 0,
        dist2(p, center) > radius * radius ==> (DenFn2::Circle { center, radius }).eval(p) > 0,
        dist2(p, center) == radius * radius ==> (DenFn2::Circle { center, radius }).eval(p) == 0,
{
    let d2 = dist2(p, center);
    let r = radius as int;
    assert(d2 >= 0) by {
        lemma_sq_nonneg(p.x - center.x);
        lemma_sq_nonneg(p.y - center.y);
    }
    lemma_floor_sqrt_exists(d2);
    let s = floor_sqrt(d2);
    assert(is_floor_sqrt(d2, s));
    if d2 < r * r {
        if s >= r {
            assert(r * r <= s * s) by (nonlinear_arith)
                requires 0 <= r <= s;
        }
    } else if d2 > r * r {
        lemma_sqrt_order(d2, s, r);
        if s == r {
            assert(s * s != d2);
        }
    } else {
        if s < r {
            assert((s + 1) * (s + 1) <= r * r) by (nonlinear_arith)
                requires 0 <= s + 1 <= r;
        }
        if s > r {
            assert((r + 1) * (r + 1) <= s * s) by (nonlinear_arith)
                requires 0 <= r + 1 <= s;
            assert(r * r < (r + 1) * (r + 1)) by (nonlinear_arith)
                requires 0 <= r;
        }
        assert(s == r);
    }
}

/// A union takes the smaller value of its operands, a difference the larger of
/// the first operand and the negated second, at every point.
pub proof fn lemma_csg_identities(a: DenFn2, b: DenFn2, p: Point2)
    ensures
        DenFn2::Union(Box::new(a), Box::new(b)).eval(p) == min_int(a.eval(p), b.eval(p)),
        DenFn2::Difference(Box::new(a), Box::new(b)).eval(p) == max_int(a.eval(p), -b.eval(p)),
{
}

pub proof fn lemma_sq_nonneg(v: int)
    ensures
        v * v >= 0,
{
    assert(v * v >= 0) by (nonlinear_arith);
}

/// Every non-negative integer has an integer square root.
pub proof fn lemma_floor_sqrt_exists(n: int)
    requires
        0 <= n,
    ensures
        is_floor_sqrt(n, floor_sqrt(n)),
    decreases n,
{
    if n == 0 {
        assert(is_floor_sqrt(0, 0));
    } else {
        lemma_floor_sqrt_exists(n - 1);
        let s = floor_sqrt(n - 1);
        if n < (s + 1) * (s + 1) {
            assert(is_floor_sqrt(n, s));
        } else {
            assert(n < (s + 2) * (s + 2)) by (nonlinear_arith)
                requires n == (s + 1) * (s + 1), 0 <= s;
            assert(is_floor_sqrt(n, s + 1));
        }
    }
}

pub proof fn lemma_sq_bound(v: int, b: int)
    requires
        abs_int(v) <= b,
    ensures
        0 <= v * v <= b * b,
{
    if v >= 0 {
        assert(0 <= v * v <= b * b) by (nonlinear_arith)
            requires 0 <= v <= b;
    } else {
        assert(0 <= v * v <= b * b) by (nonlinear_arith)
            requires 0 < -v <= b;
    }
}

/// Any two integer square roots of one number, rounded down, agree.
pub proof fn lemma_floor_sqrt_unique(n: int, s: int, t: int)
    requires
        is_floor_sqrt(n, s),
        is_floor_sqrt(n, t),
    ensures
        s == t,
{
    if s < t {
        assert((s + 1) * (s + 1) <= t * t) by (nonlinear_arith)
            requires 0 <= s + 1 <= t;
    } else if t < s {
        assert((t + 1) * (t + 1) <= s * s) by (nonlinear_arith)
            requires 0 <= t + 1 <= s;
    }
}

pub proof fn lemma_floor_sqrt_is(n: int, s: int)
    requires
        is_floor_sqrt(n, s),
    ensures
        floor_sqrt(n) == s,
{
    let t = floor_sqrt(n);
    assert(is_floor_sqrt(n, t));
    lemma_floor_sqrt_unique(n, s, t);
}

/// Outside the radius the rounded-down root is at least the radius.
proof fn lemma_sqrt_order(n: int, s: int, r: int)
    requires
        is_floor_sqrt(n, s),
        0 <= r,
        r * r < n,
    ensures
        r <= s,
{
    if s < r {
        assert((s + 1) * (s + 1) <= r * r) by (nonlinear_arith)
            requires 0 <= s + 1 <= r;
    }
}

/// The integer square root of `n`, rounded down, by bisection.
fn floor_sqrt_exec(n: i64) -> (s: i64)
    requires
        0 <= n < 70368744177664,
    ensures
        is_floor_sqrt(n as int, s as int),
        s == floor_sqrt(n as int),
        s < 8388608,
{
    let mut lo: i64 = 0;
    let mut hi: i64 = 8388608;
    assert(hi * hi == 70368744177664);
    while hi - lo > 1
        invariant
            0 <= lo < hi <= 8388608,
            lo * lo <= n,
            n < hi * hi,
        decreases hi - lo,
    {
        let mid = lo + (hi - lo) / 2;
        assert(0 <= mid * mid <= 8388608 * 8388608) by (nonlinear_arith)
            requires 0 <= mid <= 8388608;
        if mid * mid <= n {
            lo = mid;
        } else {
            hi = mid;
        }
    }
    proof {
        lemma_floor_sqrt_is(n as int, lo as int);
    }
    lo
}

} // verus!
