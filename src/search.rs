use vstd::prelude::*;

use vstd::arithmetic::div_mod::{
    lemma_div_by_multiple,
    lemma_div_is_ordered,
    lemma_div_is_ordered_by_denominator,
    lemma_div_pos_is_pos,
    lemma_fundamental_div_mod,
    lemma_mod_pos_bound,
};

use crate::field::{lemma_sq_bound, sq, DenFn2};
use crate::geom::{abs_int, pt, within, Line2, Point2, Square2, COORD_BOUND};

verus! {

/// Largest subdivision count that the searches accept.
pub const ACCURACY_MAX: usize = 4096;

/// Index of the first candidate among `0..k` that has the smallest score,
/// skipping those that are not `ok`; a later candidate replaces the one kept
/// only when its score is strictly lower.
pub open spec fn first_min(k: nat, score: spec_fn(int) -> int, ok: spec_fn(int) -> bool) -> Option<int>
    decreases k,
{
    if k == 0 {
        None
    } else {
        let prev = first_min((k - 1) as nat, score, ok);
        let c = k - 1;
        if !ok(c) {
            prev
        } else {
            match prev {
                None => Some(c),
                Some(b) => if score(c) < score(b) { Some(c) } else { prev },
            }
        }
    }
}

pub open spec fn every() -> spec_fn(int) -> bool {
    |k: int| true
}

/// The candidate kept is admissible, has the least score of all admissible
/// candidates, and every admissible candidate before it scores strictly higher;
/// there is none only when no candidate is admissible.
pub proof fn lemma_first_min(k: nat, score: spec_fn(int) -> int, ok: spec_fn(int) -> bool)
    ensures
        match first_min(k, score, ok) {
            Some(b) => {
                &&& 0 <= b < k
                &&& ok(b)
                &&& forall|i: int| 0 <= i < k && #[trigger] ok(i) ==> score(b) <= score(i)
                &&& forall|i: int| 0 <= i < b && #[trigger] ok(i) ==> score(b) < score(i)
            },
            None => forall|i: int| 0 <= i < k ==> !#[trigger] ok(i),
        },
    decreases k,
{
    if k > 0 {
        lemma_first_min((k - 1) as nat, score, ok);
    }
}

/// `a / n` rounded toward zero.
pub open spec fn tdiv(a: int, n: int) -> int {
    if a >= 0 { a / n } else { -((-a) / n) }
}

/// The coordinate a fraction `k / n` of the way from `s` to `e`, rounded toward `s`.
pub open spec fn lerp(s: int, e: int, k: int, n: int) -> int {
    s + tdiv((e - s) * k, n)
}

/// Sample `k` of `n` equally spaced samples along a segment, its far end excluded.
pub open spec fn seg_sample(line: Line2, n: int, k: int) -> Point2 {
    pt(lerp(line.start.x as int, line.end.x as int, k, n), lerp(line.start.y as int, line.end.y as int, k, n))
}

pub open spec fn seg_score(f: DenFn2, line: Line2, n: int) -> spec_fn(int) -> int {
    |k: int| abs_int(f.eval(seg_sample(line, n, k)))
}

/// The segment sample whose field value is closest to zero.
pub open spec fn intersection_spec(line: Line2, n: int, f: DenFn2) -> Point2 {
    seg_sample(line, n, first_min(n as nat, seg_score(f, line, n), every()).unwrap())
}

/// Sample `k` (row `k / n`, column `k % n`) of the `n` by `n` tangent window: the
/// window's lower corner plus even steps of `extent / n`.
pub open spec fn win_sample(sq: Square2, n: int, k: int) -> Point2 {
    pt(
        sq.center.x - sq.extent + (sq.extent * (2 * (k / n))) / n,
        sq.center.y - sq.extent + (sq.extent * (2 * (k % n))) / n,
    )
}

pub open spec fn win_score(f: DenFn2, sq: Square2, n: int) -> spec_fn(int) -> int {
    |k: int| abs_int(f.eval(win_sample(sq, n, k)) - f.eval(sq.center))
}

pub open spec fn off_center(sq: Square2, n: int) -> spec_fn(int) -> bool {
    |k: int| win_sample(sq, n, k) != sq.center
}

/// Displacement from the window's center to the sample other than the center
/// whose field value is closest to the center's.
pub open spec fn tangent_spec(sq: Square2, n: int, f: DenFn2) -> Point2 {
    let b = first_min((n * n) as nat, win_score(f, sq, n), off_center(sq, n)).unwrap();
    pt(win_sample(sq, n, b).x - sq.center.x, win_sample(sq, n, b).y - sq.center.y)
}

/// Sample `k` (row `k / n`, column `k % n`) of the `n` by `n` cell search: the
/// centers of an even `n` by `n` subdivision of the square.
pub open spec fn cell_sample(sq: Square2, n: int, k: int) -> Point2 {
    pt(
        sq.center.x - sq.extent + (sq.extent * (2 * (k / n) + 1)) / n,
        sq.center.y - sq.extent + (sq.extent * (2 * (k % n) + 1)) / n,
    )
}

/// Cross product of `p - start` with the line's direction.
pub open spec fn cross(p: Point2, l: Line2) -> int {
    (p.x - l.start.x) * (l.end.y - l.start.y) - (p.y - l.start.y) * (l.end.x - l.start.x)
}

pub open spec fn len2(l: Line2) -> int {
    sq(l.end.x - l.start.x) + sq(l.end.y - l.start.y)
}

/// Squared distance from `p` to the line through `l`, rounded down; a line of
/// zero length constrains nothing.
pub open spec fn line_err(p: Point2, l: Line2) -> int {
    if len2(l) == 0 { 0 } else { sq(cross(p, l)) / len2(l) }
}

/// The quadratic error of `p`: its summed squared distances to the lines.
pub open spec fn qef(p: Point2, lines: Seq<Line2>) -> int
    decreases lines.len(),
{
    if lines.len() == 0 {
        0
    } else {
        qef(p, lines.drop_last()) + line_err(p, lines.last())
    }
}

pub open spec fn qef_score(sq: Square2, n: int, lines: Seq<Line2>) -> spec_fn(int) -> int {
    |k: int| qef(cell_sample(sq, n, k), lines)
}

/// The cell sample of least quadratic error, the first one on ties.
pub open spec fn qef_spec(sq: Square2, n: int, lines: Seq<Line2>) -> Point2 {
    cell_sample(sq, n, first_min((n * n) as nat, qef_score(sq, n, lines), every()).unwrap())
}

/// The square lies within `bound` of the origin.
pub open spec fn square_within(sq: Square2, bound: int) -> bool {
    &&& 0 <= sq.extent
    &&& -bound <= sq.center.x - sq.extent
    &&& sq.center.x + sq.extent <= bound
    &&& -bound <= sq.center.y - sq.extent
    &&& sq.center.y + sq.extent <= bound
}

/// The point lies in the closed square.
pub open spec fn in_square(p: Point2, sq: Square2) -> bool {
    &&& sq.center.x - sq.extent <= p.x <= sq.center.x + sq.extent
    &&& sq.center.y - sq.extent <= p.y <= sq.center.y + sq.extent
}

pub open spec fn line_ok(l: Line2) -> bool {
    within(l.start, 4 * COORD_BOUND) && within(l.end, 4 * COORD_BOUND)
}

proof fn lemma_row_col(k: int, n: int)
    requires
        0 <= k < n * n,
        0 < n,
    ensures
        0 <= k / n < n,
        0 <= k % n < n,
{
    lemma_fundamental_div_mod(k, n);
    lemma_mod_pos_bound(k, n);
    lemma_div_pos_is_pos(k, n);
    assert(k / n < n) by (nonlinear_arith)
        requires
            k == n * (k / n) + k % n,
            0 <= k % n,
            k < n * n,
            0 < n,
    ;
}

/// A fraction `m / n` of at most `c` of a non-negative extent.
proof fn lemma_scaled(e: int, m: int, n: int, c: int)
    requires
        0 <= e,
        0 <= m <= c * n,
        0 < n,
        0 <= c,
    ensures
        0 <= (e * m) / n <= c * e,
{
    assert(0 <= e * m <= (c * e) * n) by (nonlinear_arith)
        requires 0 <= e, 0 <= m <= c * n, 0 < n, 0 <= c;
    lemma_div_pos_is_pos(e * m, n);
    lemma_div_is_ordered(e * m, (c * e) * n, n);
    lemma_div_by_multiple(c * e, n);
}

/// The segment samples lie between the segment's ends.
proof fn lemma_lerp(s: int, e: int, k: int, n: int)
    requires
        0 <= k <= n,
        0 < n,
    ensures
        s <= e ==> s <= lerp(s, e, k, n) <= e,
        e < s ==> e <= lerp(s, e, k, n) <= s,
{
    let d = e - s;
    if d >= 0 {
        lemma_scaled(d, k, n, 1);
        assert(d * k == k * d) by (nonlinear_arith);
    } else {
        lemma_scaled(-d, k, n, 1);
        assert((-d) * k == -(d * k)) by (nonlinear_arith);
    }
}

/// `s + (e - s) * k / n`, rounded toward `s`.
fn lerp_exec(s: i64, e: i64, k: i64, n: i64) -> (r: i64)
    requires
        abs_int(s as int) <= 2 * COORD_BOUND,
        abs_int(e as int) <= 2 * COORD_BOUND,
        0 <= k <= n,
        0 < n <= ACCURACY_MAX,
    ensures
        r == lerp(s as int, e as int, k as int, n as int),
{
    proof {
        lemma_lerp(s as int, e as int, k as int, n as int);
    }
    let d = e - s;
    if d >= 0 {
        assert(0 <= d * k <= d * 4096) by (nonlinear_arith)
            requires 0 <= d, 0 <= k <= 4096;
        s + (d * k) / n
    } else {
        assert(0 <= (-d) * k <= (-d) * 4096) by (nonlinear_arith)
            requires 0 < -d, 0 <= k <= 4096;
        assert((-d) * k == -(d * k)) by (nonlinear_arith);
        s - ((-d) * k) / n
    }
}

/// Approximate root of the field on a segment: of `n` equally spaced samples
/// (the far end excluded), the one whose field value is closest to zero.
pub fn sample_intersection_brute(line: Line2, n: usize, f: &DenFn2) -> (r: Point2)
    requires
        f.wf(),
        1 <= n <= ACCURACY_MAX,
        within(line.start, 2 * COORD_BOUND),
        within(line.end, 2 * COORD_BOUND),
    ensures
        r == intersection_spec(line, n as int, *f),
        within(r, 2 * COORD_BOUND),
        within(line.start, COORD_BOUND as int) && within(line.end, COORD_BOUND as int) ==> within(
            r,
            COORD_BOUND as int,
        ),
{
    let ghost score = seg_score(*f, line, n as int);
    let ghost ok = every();
    let nn = n as i64;
    proof {
        lemma_lerp(line.start.x as int, line.end.x as int, 0, n as int);
        lemma_lerp(line.start.y as int, line.end.y as int, 0, n as int);
    }
    let mut best_point = Point2 {
        x: lerp_exec(line.start.x, line.end.x, 0, nn),
        y: lerp_exec(line.start.y, line.end.y, 0, nn),
    };
    let v0 = f.evaluate(best_point);
    let mut best_abs: i64 = if v0 < 0 { -v0 } else { v0 };
    let ghost mut best_k: int = 0;
    assert(first_min(0, score, ok) == None::<int>);
    assert(ok(0));
    assert(first_min(1, score, ok) == Some(0int));
    let mut k: usize = 1;
    while k < n
        invariant
            f.wf(),
            1 <= k <= n <= ACCURACY_MAX,
            nn == n,
            within(line.start, 2 * COORD_BOUND),
            within(line.end, 2 * COORD_BOUND),
            score == seg_score(*f, line, n as int),
            ok == every(),
            first_min(k as nat, score, ok) == Some(best_k),
            0 <= best_k < k,
            best_point == seg_sample(line, n as int, best_k),
            best_abs == score(best_k),
            within(best_point, 2 * COORD_BOUND),
            within(line.start, COORD_BOUND as int) && within(line.end, COORD_BOUND as int) ==> within(
                best_point,
                COORD_BOUND as int,
            ),
        decreases n - k,
    {
        proof {
            lemma_lerp(line.start.x as int, line.end.x as int, k as int, n as int);
            lemma_lerp(line.start.y as int, line.end.y as int, k as int, n as int);
        }
        let p = Point2 {
            x: lerp_exec(line.start.x, line.end.x, k as i64, nn),
            y: lerp_exec(line.start.y, line.end.y, k as i64, nn),
        };
        let v = f.evaluate(p);
        let a: i64 = if v < 0 { -v } else { v };
        if a < best_abs {
            best_abs = a;
            best_point = p;
            proof {
                best_k = k as int;
            }
        }
        k = k + 1;
    }
    best_point
}

/// Approximate tangent direction at the center of a small window: of an `n` by
/// `n` grid of samples over the window, the center excluded, the displacement
/// to the one whose field value is closest to the value at the center.
pub fn sample_tangent(square: Square2, n: usize, f: &DenFn2) -> (r: Point2)
    requires
        f.wf(),
        1 <= n <= ACCURACY_MAX,
        square.extent > 0,
        square_within(square, 2 * COORD_BOUND),
    ensures
        r == tangent_spec(square, n as int, *f),
        r != pt(0, 0),
        abs_int(r.x as int) <= 2 * square.extent,
        abs_int(r.y as int) <= 2 * square.extent,
{
    let ghost score = win_score(*f, square, n as int);
    let ghost ok = off_center(square, n as int);
    let c = square.center;
    let e = square.extent;
    let nn = n as i64;
    assert(n * n <= 4096 * 4096) by (nonlinear_arith)
        requires 1 <= n <= 4096;
    let total = n * n;
    let den_at_center = f.evaluate(c);
    let mut found = false;
    let mut closest: i64 = 0;
    let mut closest_point = c;
    let ghost mut best_k: int = 0;
    let mut k: usize = 0;
    while k < total
        invariant
            f.wf(),
            1 <= n <= ACCURACY_MAX,
            nn == n,
            total == n * n,
            k <= total,
            c == square.center,
            e == square.extent,
            e > 0,
            square_within(square, 2 * COORD_BOUND),
            den_at_center == f.eval(c),
            abs_int(den_at_center as int) <= crate::geom::VAL_BOUND,
            score == win_score(*f, square, n as int),
            ok == off_center(square, n as int),
            found ==> first_min(k as nat, score, ok) == Some(best_k),
            !found ==> first_min(k as nat, score, ok) == None::<int>,
            found ==> closest_point == win_sample(square, n as int, best_k),
            found ==> closest == score(best_k),
            found ==> 0 <= best_k < total,
            found ==> c.x - e <= closest_point.x <= c.x + e && c.y - e <= closest_point.y <= c.y + e,
        decreases total - k,
    {
        proof {
            lemma_row_col(k as int, n as int);
            lemma_scaled(e as int, 2 * (k as int / n as int), n as int, 2);
            lemma_scaled(e as int, 2 * (k as int % n as int), n as int, 2);
        }
        let i = (k / n) as i64;
        let j = (k % n) as i64;
        assert(0 <= e * (2 * i) <= e * 8192 && 0 <= e * (2 * j) <= e * 8192) by (nonlinear_arith)
            requires 0 <= e, 0 <= i < 4096, 0 <= j < 4096;
        assert(e * 8192 <= 2 * COORD_BOUND * 8192) by (nonlinear_arith)
            requires 0 <= e <= 2 * COORD_BOUND;
        let p = Point2 { x: c.x - e + (e * (2 * i)) / nn, y: c.y - e + (e * (2 * j)) / nn };
        assert(p == win_sample(square, n as int, k as int));
        let den = f.evaluate(p);
        let attempt: i64 = if den >= den_at_center { den - den_at_center } else { den_at_center - den };
        let away = p.x != c.x || p.y != c.y;
        if away && (!found || attempt < closest) {
            found = true;
            closest = attempt;
            closest_point = p;
            proof {
                best_k = k as int;
            }
        }
        k = k + 1;
    }
    proof {
        lemma_first_min(total as nat, score, ok);
        assert(0 < total) by (nonlinear_arith)
            requires total == n * n, 1 <= n;
        assert(ok(0)) by {
            lemma_row_col(0, n as int);
            assert(0int / (n as int) == 0);
            assert((e as int * (2 * 0int)) / (n as int) == 0);
            assert(win_sample(square, n as int, 0).x == c.x - e);
        }
        lemma_row_col(best_k, n as int);
        lemma_scaled(e as int, 2 * (best_k / n as int), n as int, 2);
        lemma_scaled(e as int, 2 * (best_k % n as int), n as int, 2);
    }
    Point2 { x: closest_point.x - c.x, y: closest_point.y - c.y }
}

/// Bounds on one line's error at a point within range.
proof fn lemma_line_err_bound(p: Point2, l: Line2)
    requires
        within(p, 4 * COORD_BOUND),
        line_ok(l),
    ensures
        0 <= line_err(p, l) <= 0x4000_0000_0000_0000_0000_0000,
{
    let b: int = 8 * COORD_BOUND;
    let ux = p.x - l.start.x;
    let uy = p.y - l.start.y;
    let vx = l.end.x - l.start.x;
    let vy = l.end.y - l.start.y;
    assert(abs_int(ux * vy - uy * vx) <= 2 * b * b) by (nonlinear_arith)
        requires
            abs_int(ux) <= b,
            abs_int(uy) <= b,
            abs_int(vx) <= b,
            abs_int(vy) <= b,
    ;
    assert(cross(p, l) == ux * vy - uy * vx);
    lemma_sq_bound(cross(p, l), 2 * b * b);
    assert(2 * b * b * (2 * b * b) == 0x4000_0000_0000_0000_0000_0000) by (nonlinear_arith)
        requires b == 8388608;
    assert(0 <= sq(cross(p, l)) <= 0x4000_0000_0000_0000_0000_0000);
    if len2(l) != 0 {
        lemma_sq_bound(vx, b);
        lemma_sq_bound(vy, b);
        lemma_div_pos_is_pos(sq(cross(p, l)), len2(l));
        lemma_div_is_ordered_by_denominator(sq(cross(p, l)), 1, len2(l));
        assert(sq(cross(p, l)) / 1 == sq(cross(p, l)));
    }
}

/// Squared distance from `point` to the line through `line`, rounded down.
fn line_err_exec(point: Point2, line: Line2) -> (r: i128)
    requires
        within(point, 4 * COORD_BOUND),
        line_ok(line),
    ensures
        r == line_err(point, line),
{
    proof {
        lemma_line_err_bound(point, line);
    }
    let ux = (point.x - line.start.x) as i128;
    let uy = (point.y - line.start.y) as i128;
    let vx = (line.end.x - line.start.x) as i128;
    let vy = (line.end.y - line.start.y) as i128;
    let b: i128 = 8388608;
    assert(abs_int(ux * vy) <= b * b && abs_int(uy * vx) <= b * b) by (nonlinear_arith)
        requires abs_int(ux as int) <= b, abs_int(uy as int) <= b, abs_int(vx as int) <= b, abs_int(vy as int) <= b;
    let cr = ux * vy - uy * vx;
    proof {
        lemma_sq_bound(cr as int, 2 * b * b);
        assert(2 * b * b * (2 * b * b) == 0x4000_0000_0000_0000_0000_0000) by (nonlinear_arith)
            requires b == 8388608;
        lemma_sq_bound(vx as int, b as int);
        lemma_sq_bound(vy as int, b as int);
    }
    let len = vx * vx + vy * vy;
    if len == 0 {
        0
    } else {
        (cr * cr) / len
    }
}

/// Sum of squared distances from `point` to each line.
pub fn calc_qef(point: Point2, lines: &Vec<Line2>) -> (r: i128)
    requires
        within(point, 4 * COORD_BOUND),
        lines@.len() <= 4,
        forall|i: int| 0 <= i < lines@.len() ==> line_ok(#[trigger] lines@[i]),
    ensures
        r == qef(point, lines@),
        0 <= r,
{
    let mut acc: i128 = 0;
    let mut i: usize = 0;
    while i < lines.len()
        invariant
            within(point, 4 * COORD_BOUND),
            lines@.len() <= 4,
            forall|t: int| 0 <= t < lines@.len() ==> line_ok(#[trigger] lines@[t]),
            i <= lines@.len(),
            acc == qef(point, lines@.subrange(0, i as int)),
            0 <= acc <= i * 0x4000_0000_0000_0000_0000_0000,
        decreases lines@.len() - i,
    {
        proof {
            lemma_line_err_bound(point, lines@[i as int]);
            assert(lines@.subrange(0, i as int + 1).drop_last() =~= lines@.subrange(0, i as int));
        }
        let e = line_err_exec(point, lines[i]);
        acc = acc + e;
        i = i + 1;
    }
    assert(lines@.subrange(0, i as int) =~= lines@);
    acc
}

/// Brute-force minimizer of the quadratic error over a square: of the centers of
/// an `n` by `n` subdivision, taken row by row, the first of least error.
pub fn sample_qef_brute(square: Square2, n: usize, lines: &Vec<Line2>) -> (r: Point2)
    requires
        1 <= n <= ACCURACY_MAX,
        square_within(square, 2 * COORD_BOUND),
        lines@.len() <= 4,
        forall|i: int| 0 <= i < lines@.len() ==> line_ok(#[trigger] lines@[i]),
    ensures
        r == qef_spec(square, n as int, lines@),
        in_square(r, square),
{
    let ghost score = qef_score(square, n as int, lines@);
    let ghost ok = every();
    let c = square.center;
    let e = square.extent;
    let nn = n as i64;
    assert(n * n <= 4096 * 4096) by (nonlinear_arith)
        requires 1 <= n <= 4096;
    let total = n * n;
    let mut found = false;
    let mut best_qef: i128 = 0;
    let mut best_point = c;
    let ghost mut best_k: int = 0;
    let mut k: usize = 0;
    while k < total
        invariant
            1 <= n <= ACCURACY_MAX,
            nn == n,
            total == n * n,
            k <= total,
            c == square.center,
            e == square.extent,
            square_within(square, 2 * COORD_BOUND),
            lines@.len() <= 4,
            forall|i: int| 0 <= i < lines@.len() ==> line_ok(#[trigger] lines@[i]),
            score == qef_score(square, n as int, lines@),
            ok == every(),
            found == (k > 0),
            found ==> first_min(k as nat, score, ok) == Some(best_k),
            found ==> best_point == cell_sample(square, n as int, best_k),
            found ==> best_qef == score(best_k),
            found ==> 0 <= best_k < total,
            found ==> in_square(best_point, square),
        decreases total - k,
    {
        proof {
            lemma_row_col(k as int, n as int);
            lemma_scaled(e as int, 2 * (k as int / n as int) + 1, n as int, 2);
            lemma_scaled(e as int, 2 * (k as int % n as int) + 1, n as int, 2);
        }
        let i = (k / n) as i64;
        let j = (k % n) as i64;
        assert(0 <= e * (2 * i + 1) <= e * 8192 && 0 <= e * (2 * j + 1) <= e * 8192) by (nonlinear_arith)
            requires 0 <= e, 0 <= i < 4096, 0 <= j < 4096;
        assert(e * 8192 <= 2 * COORD_BOUND * 8192) by (nonlinear_arith)
            requires 0 <= e <= 2 * COORD_BOUND;
        let p = Point2 { x: c.x - e + (e * (2 * i + 1)) / nn, y: c.y - e + (e * (2 * j + 1)) / nn };
        assert(p == cell_sample(square, n as int, k as int));
        let q = calc_qef(p, lines);
        if !found || q < best_qef {
            found = true;
            best_qef = q;
            best_point = p;
            proof {
                best_k = k as int;
            }
        }
        k = k + 1;
    }
    proof {
        assert(0 < total) by (nonlinear_arith)
            requires total == n * n, 1 <= n;
    }
    best_point
}

} // verus!
