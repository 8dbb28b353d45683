use voxelized2d::contour::{
    crossing_mask, ext_for_normal, fetch_or_compute, make_contour, make_lines, make_triangles, make_vertex,
    ContourData,
};
use voxelized2d::field::{mk_circle2, mk_rectangle2, union, DenFn2};
use voxelized2d::geom::{Line2, Point2, Square2, Triangle2};
use voxelized2d::grid::{fill_in_grid, VoxelGrid2};
use voxelized2d::search::{calc_qef, sample_intersection_brute, sample_qef_brute, sample_tangent};
use voxelized2d::window::{compose, update_win_dim_info, WindowInfo};

const U: i64 = 1024;

fn p(x: i64, y: i64) -> Point2 {
    Point2::new(x, y)
}

fn scene() -> DenFn2 {
    union(mk_circle2(p(4 * U, 8 * U), 2 * U), mk_circle2(p(8 * U, 8 * U), 5 * U))
}

fn sampled(f: &DenFn2, a: i64, sx: usize, sy: usize) -> VoxelGrid2 {
    let mut g = VoxelGrid2::new(a, sx, sy);
    fill_in_grid(&mut g, f, p(0, 0));
    g
}

fn outside_both(q: Point2) -> bool {
    let d1 = (q.x - 4 * U) * (q.x - 4 * U) + (q.y - 8 * U) * (q.y - 8 * U);
    let d2 = (q.x - 8 * U) * (q.x - 8 * U) + (q.y - 8 * U) * (q.y - 8 * U);
    d1 > 4 * U * U && d2 > 25 * U * U
}

fn in_square(q: Point2, s: Square2) -> bool {
    s.center.x - s.extent <= q.x
        && q.x <= s.center.x + s.extent
        && s.center.y - s.extent <= q.y
        && q.y <= s.center.y + s.extent
}

#[test]
fn uniform_inside_cell_gives_two_triangles() {
    let f = mk_circle2(p(0, 0), 100 * U);
    let g = sampled(&f, U, 1, 1);
    assert_eq!(crossing_mask(&g, 0, 0), 0);
    let c = make_contour(&g, &f, 4);
    assert_eq!(c.triangles.len(), 2);
    assert_eq!(c.lines.len(), 0);
    assert_eq!(c.triangles[0], Triangle2 { p1: p(0, 0), p2: p(U, 0), p3: p(U, U) });
    assert_eq!(c.triangles[1], Triangle2 { p1: p(0, 0), p2: p(U, U), p3: p(0, U) });
    assert!(c.features[0].is_none());
}

#[test]
fn uniform_outside_cell_gives_nothing() {
    let f = mk_circle2(p(100 * U, 100 * U), U);
    let g = sampled(&f, U, 2, 2);
    let c = make_contour(&g, &f, 4);
    assert_eq!(c.triangles.len(), 0);
    assert_eq!(c.lines.len(), 0);
}

#[test]
fn crossing_mask_bits() {
    // vertical boundary at x = 1.5 cells: cell (1, 0) has its bottom and top edges crossing
    let f = mk_rectangle2(p(0, 0), p(3 * U / 2, 100 * U));
    let g = sampled(&f, U, 3, 1);
    assert_eq!(crossing_mask(&g, 0, 0), 0);
    assert_eq!(crossing_mask(&g, 1, 0), 1 + 4);
    assert_eq!(crossing_mask(&g, 2, 0), 0);
}

#[test]
fn single_crossing_cell_vertex_inside_square() {
    let f = mk_circle2(p(0, 0), 3 * U / 2);
    let g = sampled(&f, U, 3, 3);
    let mut tr: Vec<Triangle2> = Vec::new();
    let mut features: Vec<Option<Point2>> = vec![None; 9];
    let mut ints: Vec<Point2> = Vec::new();
    let mut extra: Vec<Point2> = Vec::new();
    let v = make_vertex(&g, &mut tr, 1, 0, &f, 8, &mut features, &mut ints, &mut extra);
    let s = g.square2(1, 0);
    let q = v.expect("a crossing cell has a feature");
    assert!(in_square(q, s));
    assert_eq!(features[1], Some(q));
    assert_eq!(ints.len(), extra.len());
    assert_eq!(tr.len(), ints.len());
    for (i, t) in tr.iter().enumerate() {
        assert_eq!(t.p1, q);
        assert_eq!(t.p2, ints[i]);
        assert_eq!(t.p3, extra[i]);
    }
    // a uniform cell changes nothing
    let none = make_vertex(&g, &mut tr, 2, 2, &f, 8, &mut features, &mut ints, &mut extra);
    assert!(none.is_none());
    assert!(features[8].is_none());
}

#[test]
fn fetch_or_compute_is_memoized() {
    let f = scene();
    let g = sampled(&f, U, 16, 16);
    let n = 256;
    let mut tr: Vec<Triangle2> = Vec::new();
    let mut features: Vec<Option<Point2>> = vec![None; n];
    let mut ints: Vec<Option<Vec<Point2>>> = vec![None; n];
    let mut extras: Vec<Option<Vec<Point2>>> = vec![None; n];
    let (x, y) = (2usize, 8usize);
    assert!(crossing_mask(&g, x, y) != 0);
    let a = fetch_or_compute(&g, &f, 8, x, y, &mut tr, &mut features, &mut ints, &mut extras);
    let after_first = tr.len();
    assert!(after_first > 0);
    let b = fetch_or_compute(&g, &f, 8, x, y, &mut tr, &mut features, &mut ints, &mut extras);
    assert!(a.is_some());
    assert_eq!(a, b);
    assert_eq!(tr.len(), after_first);
    assert_eq!(features[y * 16 + x], a);
    assert!(ints[y * 16 + x].is_some());
    assert_eq!(ints.iter().filter(|c| c.is_some()).count(), 1);
}

#[test]
fn every_crossing_cell_is_solved_once() {
    let f = scene();
    let g = sampled(&f, U, 16, 16);
    let c = make_contour(&g, &f, 8);
    let mut fans = 0;
    for y in 0..16usize {
        for x in 0..16usize {
            let t = y * 16 + x;
            let crossing = crossing_mask(&g, x, y) != 0;
            assert_eq!(c.features[t].is_some(), crossing);
            assert_eq!(c.intersections[t].is_some(), crossing);
            assert_eq!(c.extras[t].is_some(), crossing);
            if crossing {
                fans += c.intersections[t].as_ref().unwrap().len();
            }
        }
    }
    let mut quads = 0;
    for y in 0..16usize {
        for x in 0..16usize {
            if crossing_mask(&g, x, y) == 0 && g.get(x, y) < 0 {
                quads += 2;
            }
        }
    }
    assert_eq!(c.triangles.len(), fans + quads);
}

fn run(f: &DenFn2, acc: usize) -> ContourData {
    let g = sampled(f, U, 16, 16);
    make_contour(&g, f, acc)
}

#[test]
fn extraction_is_deterministic() {
    let f = scene();
    let a = run(&f, 8);
    let b = run(&f, 8);
    assert_eq!(a.lines, b.lines);
    assert_eq!(a.triangles, b.triangles);
    assert_eq!(a.features, b.features);
}

#[test]
fn end_to_end_two_circles() {
    let f = scene();
    let a = run(&f, 8);
    let b = run(&f, 8);
    assert!(a.triangles.len() > 0);
    assert!(a.lines.len() > 0);
    for t in a.triangles.iter() {
        assert!(!(outside_both(t.p1) && outside_both(t.p2) && outside_both(t.p3)));
    }
    assert_eq!(a.triangles.len(), b.triangles.len());
    assert_eq!(a.lines.len(), b.lines.len());
}

#[test]
fn lines_join_neighbouring_features() {
    let f = scene();
    let c = run(&f, 8);
    for l in c.lines.iter() {
        assert!(c.features.contains(&Some(l.start)));
        assert!(c.features.contains(&Some(l.end)));
    }
}

#[test]
fn cache_only_rebuilds_are_subsets() {
    let f = scene();
    let g = sampled(&f, U, 16, 16);
    let c = make_contour(&g, &f, 8);
    let lines = make_lines(&g, &c.features);
    assert!(lines.len() <= c.lines.len());
    for l in lines.iter() {
        assert!(c.lines.contains(l));
    }
    let tris = make_triangles(&g, &c.features, &c.intersections, &c.extras);
    assert_eq!(tris.len(), c.triangles.len());
    for t in tris.iter() {
        assert!(c.triangles.contains(t));
    }
}

#[test]
fn cache_only_lines_empty_grid() {
    let g = VoxelGrid2::new(U, 0, 3);
    let features: Vec<Option<Point2>> = Vec::new();
    assert_eq!(make_lines(&g, &features).len(), 0);
}

#[test]
fn mask_does_not_depend_on_accuracy() {
    let f = scene();
    let a = run(&f, 8);
    let b = run(&f, 16);
    for t in 0..256usize {
        assert_eq!(a.features[t].is_some(), b.features[t].is_some());
    }
}

#[test]
fn qef_error_does_not_grow_with_accuracy_for_corner() {
    // two perpendicular tangent lines meeting at (288, 672): the optimum is that corner
    let lines = vec![
        Line2 { start: p(0, 672), end: p(1024, 672) },
        Line2 { start: p(288, 0), end: p(288, 1024) },
    ];
    let sq = Square2 { center: p(512, 512), extent: 512 };
    let lo = sample_qef_brute(sq, 8, &lines);
    let hi = sample_qef_brute(sq, 16, &lines);
    assert_eq!(lo, p(320, 704));
    assert_eq!(hi, p(288, 672));
    let e_lo = calc_qef(lo, &lines);
    let e_hi = calc_qef(hi, &lines);
    assert_eq!(e_lo, 32 * 32 + 32 * 32);
    assert_eq!(e_hi, 0);
    assert!(e_hi <= e_lo);
}

#[test]
fn qef_sums_squared_distances() {
    let lines = vec![
        Line2 { start: p(0, 0), end: p(10, 0) },
        Line2 { start: p(0, 0), end: p(0, 10) },
        Line2 { start: p(0, 0), end: p(10, 10) },
    ];
    // distances 4, 3 and |3 - 4| / sqrt(2): 16 + 9 + floor(1 / 2)
    assert_eq!(calc_qef(p(3, 4), &lines), 25);
    assert_eq!(calc_qef(p(0, 0), &lines), 0);
    // degenerate line constrains nothing
    let deg = vec![Line2 { start: p(5, 5), end: p(5, 5) }];
    assert_eq!(calc_qef(p(100, 100), &deg), 0);
}

#[test]
fn qef_search_ties_keep_first() {
    let lines: Vec<Line2> = Vec::new();
    let sq = Square2 { center: p(100, 100), extent: 40 };
    assert_eq!(sample_qef_brute(sq, 4, &lines), p(70, 70));
    assert_eq!(sample_qef_brute(sq, 1, &lines), p(100, 100));
}

#[test]
fn intersection_picks_closest_to_zero() {
    let f = mk_circle2(p(0, 0), 300);
    let line = Line2 { start: p(0, 0), end: p(1000, 0) };
    assert_eq!(sample_intersection_brute(line, 10, &f), p(300, 0));
    assert_eq!(sample_intersection_brute(line, 4, &f), p(250, 0));
    assert_eq!(sample_intersection_brute(line, 1, &f), p(0, 0));
    let back = Line2 { start: p(1000, 0), end: p(0, 0) };
    assert_eq!(sample_intersection_brute(back, 10, &f), p(300, 0));
}

#[test]
fn tangent_follows_level_set() {
    let f = mk_rectangle2(p(0, 0), p(100, 10_000));
    // at the vertical side x = 100 the level set runs along y
    let d = sample_tangent(Square2 { center: p(100, 500), extent: 10 }, 4, &f);
    assert_eq!(d.x, 0);
    assert!(d.y != 0);
    // (-8, 0) and (0, -8) lie symmetrically to the circle's center: on the tie the
    // first sample in row order is kept
    let e = sample_tangent(Square2 { center: p(0, 0), extent: 8 }, 2, &mk_circle2(p(5000, 5000), 1));
    assert_eq!(e, p(-8, 0));
}

#[test]
fn normal_window_ratio() {
    assert_eq!(ext_for_normal(1024), 10);
    assert_eq!(ext_for_normal(100), 1);
    assert_eq!(ext_for_normal(50), 1);
}

#[test]
fn window_dims_update() {
    let mut w = WindowInfo { width: 800, height: 600 };
    update_win_dim_info(&mut w, 1024, 768);
    assert_eq!(w, WindowInfo { width: 1024, height: 768 });
}

#[test]
fn compose_applies_in_order() {
    let add_one = |a: i64| a + 1;
    let double = |b: i64| b * 2;
    assert_eq!(compose(&add_one, &double, 5), 12);
    assert_eq!(compose(&double, &add_one, 5), 11);
}
