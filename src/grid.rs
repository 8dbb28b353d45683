use vstd::prelude::*;

use crate::field::DenFn2;
use crate::geom::{pt, pt_ok, Point2, Square2, COORD_BOUND};

verus! {

/// Position of vertex `(x, y)` in a row-major buffer with rows of `vx` vertices.
pub open spec fn flat(vx: int, x: int, y: int) -> int {
    y * vx + x
}

/// Distinct vertices occupy distinct slots, and slots of earlier rows come first.
pub proof fn lemma_flat(vx: int, x1: int, y1: int, x2: int, y2: int)
    requires
        0 <= x1 < vx,
        0 <= x2 < vx,
        0 <= y1,
        0 <= y2,
    ensures
        y1 < y2 ==> flat(vx, x1, y1) < flat(vx, x2, y2),
        (flat(vx, x1, y1) == flat(vx, x2, y2)) == (x1 == x2 && y1 == y2),
        0 <= flat(vx, x1, y1),
{
    if y1 < y2 {
        assert(y1 * vx + vx <= y2 * vx) by (nonlinear_arith)
            requires y1 + 1 <= y2, 0 <= vx;
    }
    if y2 < y1 {
        assert(y2 * vx + vx <= y1 * vx) by (nonlinear_arith)
            requires y2 + 1 <= y1, 0 <= vx;
    }
    assert(0 <= y1 * vx) by (nonlinear_arith)
        requires 0 <= y1, 0 <= vx;
}

/// The slot of a vertex lies inside a buffer of `vx * vy` values.
pub proof fn lemma_flat_in(vx: int, vy: int, x: int, y: int)
    requires
        0 <= x < vx,
        0 <= y < vy,
    ensures
        0 <= flat(vx, x, y) < vx * vy,
{
    assert(y * vx + vx <= vy * vx) by (nonlinear_arith)
        requires y + 1 <= vy, 0 <= vx;
    assert(0 <= y * vx) by (nonlinear_arith)
        requires 0 <= y, 0 <= vx;
    assert(vx * vy == vy * vx) by (nonlinear_arith);
}

pub proof fn lemma_mul_le(i: int, n: int, a: int)
    requires
        0 <= i <= n,
        0 <= a,
    ensures
        0 <= i * a <= n * a,
{
    assert(0 <= i * a <= n * a) by (nonlinear_arith)
        requires 0 <= i <= n, 0 <= a;
}

pub proof fn lemma_le_mul(s: int, a: int)
    requires
        0 <= s,
        1 <= a,
    ensures
        s <= s * a,
{
    assert(s <= s * a) by (nonlinear_arith)
        requires 0 <= s, 1 <= a;
}

/// A dense grid of field samples: `size_x` by `size_y` cells of side `a`, whose
/// `(size_x + 1) * (size_y + 1)` vertex values are stored row by row.
pub struct VoxelGrid2 {
    pub a: i64,
    pub size_x: usize,
    pub size_y: usize,
    pub grid: Vec<i64>,
}

impl VoxelGrid2 {
    /// The cell side is positive, the grid's extent stays within the coordinate
    /// bound, and the buffer holds one value per vertex.
    pub open spec fn wf(&self) -> bool {
        &&& self.a > 0
        &&& self.size_x * self.a <= COORD_BOUND
        &&& self.size_y * self.a <= COORD_BOUND
        &&& self.size_x <= COORD_BOUND
        &&& self.size_y <= COORD_BOUND
        &&& (self.size_x + 1) * (self.size_y + 1) <= usize::MAX
        &&& self.grid@.len() == (self.size_x + 1) * (self.size_y + 1)
    }

    pub open spec fn vx(&self) -> int {
        self.size_x + 1
    }

    pub open spec fn vy(&self) -> int {
        self.size_y + 1
    }

    /// The sampled value at vertex `(x, y)`.
    pub open spec fn value(&self, x: int, y: int) -> i64 {
        self.grid@[flat(self.vx(), x, y)]
    }

    /// World position of vertex `(x, y)`.
    pub open spec fn point(&self, x: int, y: int) -> Point2 {
        pt(x * self.a, y * self.a)
    }

    /// The square of cell `(x, y)`.
    pub open spec fn square(&self, x: int, y: int) -> Square2 {
        Square2 { center: pt(x * self.a + self.a / 2, y * self.a + self.a / 2), extent: (self.a / 2) as i64 }
    }

    /// A grid of zeros; it has to be filled before contours are taken from it.
    pub fn new(a: i64, size_x: usize, size_y: usize) -> (r: VoxelGrid2)
        requires
            a > 0,
            size_x * a <= COORD_BOUND,
            size_y * a <= COORD_BOUND,
            (size_x + 1) * (size_y + 1) <= usize::MAX,
        ensures
            r.wf(),
            r.a == a,
            r.size_x == size_x,
            r.size_y == size_y,
            forall|i: int| 0 <= i < r.grid@.len() ==> r.grid@[i] == 0,
    {
        proof {
            lemma_le_mul(size_x as int, a as int);
            lemma_le_mul(size_y as int, a as int);
        }
        let n = (size_x + 1) * (size_y + 1);
        let mut grid: Vec<i64> = Vec::new();
        let mut i: usize = 0;
        while i < n
            invariant
                i <= n,
                grid@.len() == i,
                forall|k: int| 0 <= k < i ==> grid@[k] == 0,
            decreases n - i,
        {
            grid.push(0);
            i = i + 1;
        }
        VoxelGrid2 { a, size_x, size_y, grid }
    }

    pub fn vertices_x(&self) -> (r: usize)
        requires
            self.wf(),
        ensures
            r == self.vx(),
    {
        self.size_x + 1
    }

    pub fn vertices_y(&self) -> (r: usize)
        requires
            self.wf(),
        ensures
            r == self.vy(),
    {
        self.size_y + 1
    }

    /// The value stored for vertex `(x, y)`.
    pub fn get(&self, x: usize, y: usize) -> (r: i64)
        requires
            self.wf(),
            x <= self.size_x,
            y <= self.size_y,
        ensures
            r == self.value(x as int, y as int),
    {
        proof {
            lemma_flat_in(self.vx(), self.vy(), x as int, y as int);
            lemma_mul_le(y as int, self.size_y as int, (self.size_x + 1) as int);
        }
        self.grid[y * (self.size_x + 1) + x]
    }

    /// World position of vertex `(x, y)`.
    pub fn get_point(&self, x: usize, y: usize) -> (r: Point2)
        requires
            self.wf(),
            x <= self.size_x,
            y <= self.size_y,
        ensures
            r == self.point(x as int, y as int),
            pt_ok(r),
    {
        proof {
            lemma_mul_le(x as int, self.size_x as int, self.a as int);
            lemma_mul_le(y as int, self.size_y as int, self.a as int);
        }
        Point2 { x: x as i64 * self.a, y: y as i64 * self.a }
    }

    /// The square of cell `(x, y)`: centered in the cell, half a side wide.
    pub fn square2(&self, x: usize, y: usize) -> (r: Square2)
        requires
            self.wf(),
            x < self.size_x,
            y < self.size_y,
        ensures
            r == self.square(x as int, y as int),
            pt_ok(r.center),
            0 <= r.extent,
            0 <= r.center.x - r.extent,
            r.center.x + r.extent <= COORD_BOUND,
            0 <= r.center.y - r.extent,
            r.center.y + r.extent <= COORD_BOUND,
    {
        proof {
            lemma_mul_le(x as int + 1, self.size_x as int, self.a as int);
            lemma_mul_le(y as int + 1, self.size_y as int, self.a as int);
            assert((x + 1) * self.a == x * self.a + self.a) by (nonlinear_arith);
            assert((y + 1) * self.a == y * self.a + self.a) by (nonlinear_arith);
        }
        let h = self.a / 2;
        Square2 { center: Point2 { x: x as i64 * self.a + h, y: y as i64 * self.a + h }, extent: h }
    }
}

/// The point `offset + (x * a, y * a)`.
pub open spec fn sample_point(offset: Point2, a: int, x: int, y: int) -> Point2 {
    pt(offset.x + x * a, offset.y + y * a)
}

/// Samples `f` at every vertex of the grid, shifted by `point`.
pub fn fill_in_grid(vg: &mut VoxelGrid2, f: &DenFn2, point: Point2)
    requires
        old(vg).wf(),
        f.wf(),
        pt_ok(point),
        pt_ok(sample_point(point, old(vg).a as int, old(vg).size_x as int, old(vg).size_y as int)),
    ensures
        final(vg).wf(),
        final(vg).a == old(vg).a,
        final(vg).size_x == old(vg).size_x,
        final(vg).size_y == old(vg).size_y,
        forall|x: int, y: int|
            0 <= x <= final(vg).size_x && 0 <= y <= final(vg).size_y ==> #[trigger] final(vg).value(x, y)
                == f.eval(sample_point(point, final(vg).a as int, x, y)),
{
    let vx = vg.vertices_x();
    let vy = vg.vertices_y();
    let ghost g0 = *vg;
    let mut y: usize = 0;
    while y < vy
        invariant
            vg.wf(),
            vg.a == g0.a,
            vg.size_x == g0.size_x,
            vg.size_y == g0.size_y,
            vx == vg.vx(),
            vy == vg.vy(),
            f.wf(),
            pt_ok(point),
            pt_ok(sample_point(point, g0.a as int, g0.size_x as int, g0.size_y as int)),
            y <= vy,
            forall|xx: int, yy: int|
                0 <= xx < vx && 0 <= yy < y ==> #[trigger] vg.value(xx, yy)
                    == f.eval(sample_point(point, vg.a as int, xx, yy)),
        decreases vy - y,
    {
        let mut x: usize = 0;
        while x < vx
            invariant
                vg.wf(),
                vg.a == g0.a,
                vg.size_x == g0.size_x,
                vg.size_y == g0.size_y,
                vx == vg.vx(),
                vy == vg.vy(),
                f.wf(),
                pt_ok(point),
                pt_ok(sample_point(point, g0.a as int, g0.size_x as int, g0.size_y as int)),
                y < vy,
                x <= vx,
                forall|xx: int, yy: int|
                    0 <= xx < vx && 0 <= yy < y ==> #[trigger] vg.value(xx, yy)
                        == f.eval(sample_point(point, vg.a as int, xx, yy)),
                forall|xx: int| 0 <= xx < x ==> #[trigger] vg.value(xx, y as int)
                    == f.eval(sample_point(point, vg.a as int, xx, y as int)),
            decreases vx - x,
        {
            proof {
                lemma_mul_le(x as int, vg.size_x as int, vg.a as int);
                lemma_mul_le(y as int, vg.size_y as int, vg.a as int);
                lemma_flat_in(vx as int, vy as int, x as int, y as int);
            }
            let q = Point2 { x: point.x + x as i64 * vg.a, y: point.y + y as i64 * vg.a };
            let v = f.evaluate(q);
            let ghost before = *vg;
            vg.grid.set(y * vx + x, v);
            proof {
                assert forall|xx: int, yy: int|
                    0 <= xx < vx && 0 <= yy < y implies #[trigger] vg.value(xx, yy)
                        == f.eval(sample_point(point, vg.a as int, xx, yy)) by {
                    lemma_flat(vx as int, xx, yy, x as int, y as int);
                    assert(before.value(xx, yy) == f.eval(sample_point(point, vg.a as int, xx, yy)));
                }
                assert forall|xx: int| 0 <= xx < x + 1 implies #[trigger] vg.value(xx, y as int)
                    == f.eval(sample_point(point, vg.a as int, xx, y as int)) by {
                    lemma_flat(vx as int, xx, y as int, x as int, y as int);
                    if xx < x {
                        assert(before.value(xx, y as int) == f.eval(sample_point(point, vg.a as int, xx, y as int)));
                    }
                }
            }
            x = x + 1;
        }
        y = y + 1;
    }
}

} // verus!
