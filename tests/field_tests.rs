use voxelized2d::contour::const_sign;
use voxelized2d::field::{difference, mk_circle2, mk_rectangle2, union, DenFn2};
use voxelized2d::geom::Point2;
use voxelized2d::grid::{fill_in_grid, VoxelGrid2};

const U: i64 = 1024;

fn p(x: i64, y: i64) -> Point2 {
    Point2::new(x, y)
}

#[test]
fn same_sign_predicate() {
    assert!(const_sign(1, 1));
    assert!(!const_sign(1, -1));
    assert!(const_sign(0, -1));
    assert!(!const_sign(0, 1));
    assert!(const_sign(0, 0));
    assert!(const_sign(-3, -7));
}

#[test]
fn circle_values_are_rounded_distances() {
    let c = mk_circle2(p(0, 0), 10);
    assert_eq!(c.evaluate(p(0, 0)), -10);
    assert_eq!(c.evaluate(p(3, 4)), -5);
    assert_eq!(c.evaluate(p(6, 8)), 0);
    assert_eq!(c.evaluate(p(30, 40)), 40);
    // inside, the root rounds down: sqrt(2) -> 1
    assert_eq!(c.evaluate(p(1, 1)), -9);
    // outside, the root rounds up: sqrt(101) -> 11
    assert_eq!(c.evaluate(p(10, 1)), 1);
}

#[test]
fn rectangle_values() {
    let r = mk_rectangle2(p(0, 0), p(10, 20));
    assert_eq!(r.evaluate(p(0, 0)), -10);
    assert_eq!(r.evaluate(p(5, 18)), -2);
    assert_eq!(r.evaluate(p(10, 0)), 0);
    assert_eq!(r.evaluate(p(13, 24)), 5);
    assert_eq!(r.evaluate(p(-17, 0)), 7);
}

#[test]
fn circle_sign_on_grid() {
    let c = mk_circle2(p(4 * U, 8 * U), 2 * U);
    let mut g = VoxelGrid2::new(U / 2, 32, 32);
    fill_in_grid(&mut g, &c, p(0, 0));
    for y in 0..=32usize {
        for x in 0..=32usize {
            let v = g.get(x, y);
            let q = g.get_point(x, y);
            let d2 = (q.x - 4 * U) * (q.x - 4 * U) + (q.y - 8 * U) * (q.y - 8 * U);
            let r2 = 4 * U * U;
            if d2 < r2 {
                assert!(v < 0);
            } else if d2 > r2 {
                assert!(v > 0);
            } else {
                assert_eq!(v, 0);
            }
        }
    }
}

#[test]
fn csg_identities_on_samples() {
    let pts = [p(0, 0), p(4 * U, 8 * U), p(7 * U, 3 * U), p(-U, 12 * U), p(9 * U + 17, 8 * U - 3)];
    for q in pts.iter() {
        let a = mk_circle2(p(4 * U, 8 * U), 2 * U);
        let b = mk_rectangle2(p(8 * U, 8 * U), p(3 * U, U));
        let va = a.evaluate(*q);
        let vb = b.evaluate(*q);
        let u = union(mk_circle2(p(4 * U, 8 * U), 2 * U), mk_rectangle2(p(8 * U, 8 * U), p(3 * U, U)));
        assert_eq!(u.evaluate(*q), va.min(vb));
        let d = difference(a, b);
        assert_eq!(d.evaluate(*q), va.max(-vb));
    }
}

#[test]
fn fill_shifts_by_origin() {
    let c = mk_circle2(p(0, 0), 100);
    let mut g = VoxelGrid2::new(10, 4, 3);
    fill_in_grid(&mut g, &c, p(-20, 5));
    assert_eq!(g.vertices_x(), 5);
    assert_eq!(g.vertices_y(), 4);
    for y in 0..4usize {
        for x in 0..5usize {
            let q = p(-20 + 10 * x as i64, 5 + 10 * y as i64);
            assert_eq!(g.get(x, y), c.evaluate(q));
            assert_eq!(g.grid[y * 5 + x], c.evaluate(q));
        }
    }
    assert_eq!(g.get_point(3, 2), p(30, 20));
    let sq = g.square2(1, 2);
    assert_eq!(sq.center, p(15, 25));
    assert_eq!(sq.extent, 5);
}

#[test]
fn nested_csg_tree() {
    let t: DenFn2 = difference(
        union(mk_circle2(p(0, 0), 50), mk_circle2(p(100, 0), 50)),
        mk_rectangle2(p(50, 0), p(10, 10)),
    );
    assert!(t.evaluate(p(0, 0)) < 0);
    assert!(t.evaluate(p(100, 0)) < 0);
    assert!(t.evaluate(p(50, 0)) > 0);
    assert!(t.evaluate(p(50, 200)) > 0);
}
