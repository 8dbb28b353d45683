use vstd::prelude::*;

use vstd::arithmetic::div_mod::{lemma_fundamental_div_mod, lemma_fundamental_div_mod_converse, lemma_mod_pos_bound};

use crate::field::DenFn2;
use crate::geom::{pt, pt_ok, Line2, Point2, Square2, Triangle2, COORD_BOUND};
use crate::grid::{lemma_flat_in, VoxelGrid2};
use crate::search::{
    in_square,
    intersection_spec,
    qef_spec,
    sample_intersection_brute,
    sample_qef_brute,
    sample_tangent,
    tangent_spec,
    ACCURACY_MAX,
};

verus! {

/// Two field values lie on the same side of the boundary, zero counting as
/// non-positive.
pub open spec fn same_sign_spec(a: i64, b: i64) -> bool {
    if a > 0 { b > 0 } else { b <= 0 }
}

pub fn const_sign(a: i64, b: i64) -> (r: bool)
    ensures
        r == same_sign_spec(a, b),
{
    if a > 0 { b > 0 } else { b <= 0 }
}

/// Half width of the window in which a tangent is estimated: a hundredth of the
/// cell side, and never less than one unit.
pub open spec fn ext_normal(block_size: int) -> int {
    if block_size >= 100 { block_size / 100 } else { 1 }
}

pub fn ext_for_normal(block_size: i64) -> (r: i64)
    requires
        block_size > 0,
    ensures
        r == ext_normal(block_size as int),
        1 <= r <= block_size,
{
    if block_size >= 100 { block_size / 100 } else { 1 }
}

/// Corners of a cell: 0 at `(x, y)`, 1 at `(x + 1, y)`, 2 at `(x, y + 1)`,
/// 3 at `(x + 1, y + 1)`.
pub open spec fn corner_dx(c: int) -> int {
    if c == 1 || c == 3 { 1 } else { 0 }
}

pub open spec fn corner_dy(c: int) -> int {
    if c >= 2 { 1 } else { 0 }
}

/// Edges in order bottom, right, top, left, each from one corner to the next.
pub open spec fn edge_from(k: int) -> int {
    if k == 0 { 0 } else if k == 1 { 1 } else if k == 2 { 3 } else { 2 }
}

pub open spec fn edge_to(k: int) -> int {
    if k == 0 { 1 } else if k == 1 { 3 } else if k == 2 { 2 } else { 0 }
}

pub open spec fn cval(vg: VoxelGrid2, x: int, y: int, c: int) -> i64 {
    vg.value(x + corner_dx(c), y + corner_dy(c))
}

pub open spec fn cpos(vg: VoxelGrid2, x: int, y: int, c: int) -> Point2 {
    vg.point(x + corner_dx(c), y + corner_dy(c))
}

/// The field changes sign along edge `k` of cell `(x, y)`.
pub open spec fn crosses(vg: VoxelGrid2, x: int, y: int, k: int) -> bool {
    !same_sign_spec(cval(vg, x, y, edge_from(k)), cval(vg, x, y, edge_to(k)))
}

pub open spec fn bit(b: bool, v: int) -> int {
    if b { v } else { 0 }
}

/// The crossing mask: bit `2^k` is set when edge `k` crosses.
pub open spec fn mask_spec(vg: VoxelGrid2, x: int, y: int) -> int {
    bit(crosses(vg, x, y, 0), 1) + bit(crosses(vg, x, y, 1), 2) + bit(crosses(vg, x, y, 2), 4) + bit(
        crosses(vg, x, y, 3),
        8,
    )
}

pub open spec fn opt<T>(b: bool, v: T) -> Seq<T> {
    if b { seq![v] } else { Seq::empty() }
}

pub open spec fn pt_sub(p: Point2, q: Point2) -> Point2 {
    pt(p.x - q.x, p.y - q.y)
}

pub open spec fn pt_add(p: Point2, q: Point2) -> Point2 {
    pt(p.x + q.x, p.y + q.y)
}

/// An edge yields a record when it crosses, or when its first corner is inside.
pub open spec fn edge_kept(pa: i64, pb: i64) -> bool {
    !same_sign_spec(pa, pb) || pa < 0
}

/// The edge's approximate root, or its first corner when it does not cross.
#[verifier::opaque]
pub open spec fn edge_point(va: Point2, vb: Point2, pa: i64, pb: i64, f: DenFn2, n: int) -> Point2 {
    if !same_sign_spec(pa, pb) {
        intersection_spec(Line2 { start: va, end: vb }, n, f)
    } else {
        va
    }
}

/// The corner paired with the edge point: the non-positive end of a crossing
/// edge, the second corner otherwise.
#[verifier::opaque]
pub open spec fn edge_partner(va: Point2, vb: Point2, pa: i64, pb: i64) -> Point2 {
    if !same_sign_spec(pa, pb) {
        if pa <= 0 { va } else { vb }
    } else {
        vb
    }
}

/// The edge's tangent constraint: through the root along the estimated tangent
/// for a crossing edge, the edge itself otherwise.
#[verifier::opaque]
pub open spec fn edge_tangent(va: Point2, vb: Point2, pa: i64, pb: i64, f: DenFn2, n: int, ext: int) -> Line2 {
    if !same_sign_spec(pa, pb) {
        let ip = intersection_spec(Line2 { start: va, end: vb }, n, f);
        let dir = tangent_spec(Square2 { center: ip, extent: ext as i64 }, n, f);
        Line2 { start: pt_sub(ip, dir), end: pt_add(ip, dir) }
    } else {
        Line2 { start: va, end: vb }
    }
}

pub open spec fn cell_edge_kept(vg: VoxelGrid2, x: int, y: int, k: int) -> bool {
    edge_kept(cval(vg, x, y, edge_from(k)), cval(vg, x, y, edge_to(k)))
}

pub open spec fn cell_edge_tangent(vg: VoxelGrid2, f: DenFn2, n: int, x: int, y: int, k: int) -> Line2 {
    edge_tangent(
        cpos(vg, x, y, edge_from(k)),
        cpos(vg, x, y, edge_to(k)),
        cval(vg, x, y, edge_from(k)),
        cval(vg, x, y, edge_to(k)),
        f,
        n,
        ext_normal(vg.a as int),
    )
}

pub open spec fn cell_edge_point(vg: VoxelGrid2, f: DenFn2, n: int, x: int, y: int, k: int) -> Point2 {
    edge_point(
        cpos(vg, x, y, edge_from(k)),
        cpos(vg, x, y, edge_to(k)),
        cval(vg, x, y, edge_from(k)),
        cval(vg, x, y, edge_to(k)),
        f,
        n,
    )
}

pub open spec fn cell_edge_partner(vg: VoxelGrid2, x: int, y: int, k: int) -> Point2 {
    edge_partner(
        cpos(vg, x, y, edge_from(k)),
        cpos(vg, x, y, edge_to(k)),
        cval(vg, x, y, edge_from(k)),
        cval(vg, x, y, edge_to(k)),
    )
}

/// The tangent constraints of a cell, edge by edge.
pub open spec fn cell_tangents(vg: VoxelGrid2, f: DenFn2, n: int, x: int, y: int) -> Seq<Line2> {
    opt(cell_edge_kept(vg, x, y, 0), cell_edge_tangent(vg, f, n, x, y, 0)) + opt(
        cell_edge_kept(vg, x, y, 1),
        cell_edge_tangent(vg, f, n, x, y, 1),
    ) + opt(cell_edge_kept(vg, x, y, 2), cell_edge_tangent(vg, f, n, x, y, 2)) + opt(
        cell_edge_kept(vg, x, y, 3),
        cell_edge_tangent(vg, f, n, x, y, 3),
    )
}

/// The edge points recorded for a cell, edge by edge.
pub open spec fn cell_points(vg: VoxelGrid2, f: DenFn2, n: int, x: int, y: int) -> Seq<Point2> {
    opt(cell_edge_kept(vg, x, y, 0), cell_edge_point(vg, f, n, x, y, 0)) + opt(
        cell_edge_kept(vg, x, y, 1),
        cell_edge_point(vg, f, n, x, y, 1),
    ) + opt(cell_edge_kept(vg, x, y, 2), cell_edge_point(vg, f, n, x, y, 2)) + opt(
        cell_edge_kept(vg, x, y, 3),
        cell_edge_point(vg, f, n, x, y, 3),
    )
}

/// The corners paired with the recorded edge points.
pub open spec fn cell_partners(vg: VoxelGrid2, x: int, y: int) -> Seq<Point2> {
    opt(cell_edge_kept(vg, x, y, 0), cell_edge_partner(vg, x, y, 0)) + opt(
        cell_edge_kept(vg, x, y, 1),
        cell_edge_partner(vg, x, y, 1),
    ) + opt(cell_edge_kept(vg, x, y, 2), cell_edge_partner(vg, x, y, 2)) + opt(
        cell_edge_kept(vg, x, y, 3),
        cell_edge_partner(vg, x, y, 3),
    )
}

/// The dual vertex of a crossing cell: the QEF minimizer over the cell's square.
#[verifier::opaque]
pub open spec fn cell_vertex(vg: VoxelGrid2, f: DenFn2, n: int, x: int, y: int) -> Point2 {
    qef_spec(vg.square(x, y), n, cell_tangents(vg, f, n, x, y))
}

/// One triangle from `v` to each recorded point and its partner.
pub open spec fn fan(v: Point2, a: Seq<Point2>, b: Seq<Point2>) -> Seq<Triangle2> {
    Seq::new(a.len(), |i: int| Triangle2 { p1: v, p2: a[i], p3: b[i] })
}

pub open spec fn cell_fan(vg: VoxelGrid2, f: DenFn2, n: int, x: int, y: int) -> Seq<Triangle2> {
    fan(cell_vertex(vg, f, n, x, y), cell_points(vg, f, n, x, y), cell_partners(vg, x, y))
}

/// The two triangles that fill cell `(x, y)`, split along its `v0`-`v3` diagonal.
pub open spec fn cell_quad(vg: VoxelGrid2, x: int, y: int) -> Seq<Triangle2> {
    seq![
        Triangle2 { p1: cpos(vg, x, y, 0), p2: cpos(vg, x, y, 1), p3: cpos(vg, x, y, 3) },
        Triangle2 { p1: cpos(vg, x, y, 0), p2: cpos(vg, x, y, 3), p3: cpos(vg, x, y, 2) },
    ]
}

/// The arguments of a cell-level operation are in range.
pub open spec fn cell_args(vg: VoxelGrid2, f: DenFn2, n: int, x: int, y: int) -> bool {
    &&& vg.wf()
    &&& f.wf()
    &&& 1 <= n <= ACCURACY_MAX
    &&& 0 <= x < vg.size_x
    &&& 0 <= y < vg.size_y
}

/// The 4-bit crossing mask of cell `(x, y)`.
pub fn crossing_mask(vg: &VoxelGrid2, x: usize, y: usize) -> (r: u8)
    requires
        vg.wf(),
        x < vg.size_x,
        y < vg.size_y,
    ensures
        r == mask_spec(*vg, x as int, y as int),
{
    let p0 = vg.get(x, y);
    let p1 = vg.get(x + 1, y);
    let p2 = vg.get(x, y + 1);
    let p3 = vg.get(x + 1, y + 1);
    let mut sit: u8 = 0;
    if !const_sign(p0, p1) {
        sit = sit + 1;
    }
    if !const_sign(p1, p3) {
        sit = sit + 2;
    }
    if !const_sign(p3, p2) {
        sit = sit + 4;
    }
    if !const_sign(p2, p0) {
        sit = sit + 8;
    }
    sit
}

/// Handles one edge of a crossing cell: records its tangent constraint, edge
/// point and partner corner where the edge is kept.
fn edge_worker(
    va: Point2,
    vb: Point2,
    pa: i64,
    pb: i64,
    f: &DenFn2,
    n: usize,
    ext: i64,
    tangents: &mut Vec<Line2>,
    out_intersections: &mut Vec<Point2>,
    out_extra: &mut Vec<Point2>,
)
    requires
        f.wf(),
        1 <= n <= ACCURACY_MAX,
        pt_ok(va),
        pt_ok(vb),
        1 <= ext <= COORD_BOUND,
    ensures
        final(tangents)@ == old(tangents)@ + opt(edge_kept(pa, pb), edge_tangent(va, vb, pa, pb, *f, n as int, ext as int)),
        final(out_intersections)@ == old(out_intersections)@ + opt(edge_kept(pa, pb), edge_point(va, vb, pa, pb, *f, n as int)),
        final(out_extra)@ == old(out_extra)@ + opt(edge_kept(pa, pb), edge_partner(va, vb, pa, pb)),
        edge_kept(pa, pb) ==> crate::search::line_ok(edge_tangent(va, vb, pa, pb, *f, n as int, ext as int)),
{
    proof {
        reveal(edge_point);
        reveal(edge_partner);
        reveal(edge_tangent);
    }
    if !const_sign(pa, pb) {
        let ip = sample_intersection_brute(Line2 { start: va, end: vb }, n, f);
        let full = if pa <= 0 { va } else { vb };
        let dir = sample_tangent(Square2 { center: ip, extent: ext }, n, f);
        let line = Line2 {
            start: Point2 { x: ip.x - dir.x, y: ip.y - dir.y },
            end: Point2 { x: ip.x + dir.x, y: ip.y + dir.y },
        };
        tangents.push(line);
        out_intersections.push(ip);
        out_extra.push(full);
    } else if pa < 0 {
        tangents.push(Line2 { start: va, end: vb });
        out_intersections.push(va);
        out_extra.push(vb);
    }
    proof {
        assert(old(tangents)@ + opt(edge_kept(pa, pb), edge_tangent(va, vb, pa, pb, *f, n as int, ext as int))
            =~= tangents@);
        assert(old(out_intersections)@ + opt(edge_kept(pa, pb), edge_point(va, vb, pa, pb, *f, n as int))
            =~= out_intersections@);
        assert(old(out_extra)@ + opt(edge_kept(pa, pb), edge_partner(va, vb, pa, pb)) =~= out_extra@);
    }
}

/// Collects the tangent constraints and edge records of a cell, edge by edge.
#[verifier::rlimit(60)]
fn collect_edges(
    vg: &VoxelGrid2,
    x: usize,
    y: usize,
    f: &DenFn2,
    accuracy: usize,
    tangents: &mut Vec<Line2>,
    out_intersections: &mut Vec<Point2>,
    out_extra: &mut Vec<Point2>,
)
    requires
        cell_args(*vg, *f, accuracy as int, x as int, y as int),
        old(tangents)@.len() == 0,
    ensures
        final(tangents)@ == cell_tangents(*vg, *f, accuracy as int, x as int, y as int),
        final(tangents)@.len() <= 4,
        forall|i: int| 0 <= i < final(tangents)@.len() ==> crate::search::line_ok(#[trigger] final(tangents)@[i]),
        final(out_intersections)@ == old(out_intersections)@ + cell_points(*vg, *f, accuracy as int, x as int, y as int),
        final(out_extra)@ == old(out_extra)@ + cell_partners(*vg, x as int, y as int),
{
    let ghost n = accuracy as int;
    let p0 = vg.get(x, y);
    let p1 = vg.get(x + 1, y);
    let p2 = vg.get(x, y + 1);
    let p3 = vg.get(x + 1, y + 1);
    let v0 = vg.get_point(x, y);
    let v1 = vg.get_point(x + 1, y);
    let v2 = vg.get_point(x, y + 1);
    let v3 = vg.get_point(x + 1, y + 1);
    let ext = ext_for_normal(vg.a);
    proof {
        crate::grid::lemma_le_mul(vg.a as int, vg.size_x as int);
        assert(vg.a * vg.size_x == vg.size_x * vg.a) by (nonlinear_arith);
    }
    let ghost i0 = out_intersections@;
    let ghost e0 = out_extra@;
    proof {
        let xi = x as int;
        let yi = y as int;
        assert(v0 == cpos(*vg, xi, yi, 0) && v1 == cpos(*vg, xi, yi, 1));
        assert(v2 == cpos(*vg, xi, yi, 2) && v3 == cpos(*vg, xi, yi, 3));
        assert(p0 == cval(*vg, xi, yi, 0) && p1 == cval(*vg, xi, yi, 1));
        assert(p2 == cval(*vg, xi, yi, 2) && p3 == cval(*vg, xi, yi, 3));
    }
    edge_worker(v0, v1, p0, p1, f, accuracy, ext, tangents, out_intersections, out_extra);
    edge_worker(v1, v3, p1, p3, f, accuracy, ext, tangents, out_intersections, out_extra);
    edge_worker(v3, v2, p3, p2, f, accuracy, ext, tangents, out_intersections, out_extra);
    edge_worker(v2, v0, p2, p0, f, accuracy, ext, tangents, out_intersections, out_extra);
    proof {
        let xi = x as int;
        let yi = y as int;
        assert(tangents@ =~= cell_tangents(*vg, *f, n, xi, yi));
        assert(out_intersections@ =~= i0 + cell_points(*vg, *f, n, xi, yi));
        assert(out_extra@ =~= e0 + cell_partners(*vg, xi, yi));
    }
}

/// Appends one triangle from `v` to each point of `a` and its partner in `b`.
fn push_fan(tr: &mut Vec<Triangle2>, v: Point2, a: &Vec<Point2>, b: &Vec<Point2>)
    requires
        a@.len() == b@.len(),
    ensures
        final(tr)@ == old(tr)@ + fan(v, a@, b@),
{
    let ghost t0 = tr@;
    let len = a.len();
    let mut i: usize = 0;
    while i < len
        invariant
            len == a@.len(),
            len == b@.len(),
            i <= len,
            tr@.len() == t0.len() + i,
            forall|j: int| 0 <= j < t0.len() ==> tr@[j] == t0[j],
            forall|j: int|
                0 <= j < i ==> #[trigger] tr@[t0.len() + j] == (Triangle2 { p1: v, p2: a@[j], p3: b@[j] }),
        decreases len - i,
    {
        tr.push(Triangle2 { p1: v, p2: a[i], p3: b[i] });
        i = i + 1;
    }
    assert(tr@ =~= t0 + fan(v, a@, b@)) by {
        assert forall|j: int| t0.len() <= j < tr@.len() implies tr@[j] == (t0 + fan(v, a@, b@))[j] by {
            assert(tr@[t0.len() + (j - t0.len())] == tr@[j]);
        }
    }
}

/// Computes the dual vertex of cell `(x, y)`. A cell that no edge crosses has
/// none, and nothing changes. Otherwise the cell's edge records are appended to
/// `out_intersections` and `out_extra`, a fan triangle from the vertex to each
/// record held there is appended to `tr`, and the vertex is stored in `features`.
pub fn make_vertex(
    vg: &VoxelGrid2,
    tr: &mut Vec<Triangle2>,
    x: usize,
    y: usize,
    f: &DenFn2,
    accuracy: usize,
    features: &mut Vec<Option<Point2>>,
    out_intersections: &mut Vec<Point2>,
    out_extra: &mut Vec<Point2>,
) -> (r: Option<Point2>)
    requires
        cell_args(*vg, *f, accuracy as int, x as int, y as int),
        old(features)@.len() == vg.size_x * vg.size_y,
        old(out_intersections)@.len() == old(out_extra)@.len(),
    ensures
        mask_spec(*vg, x as int, y as int) == 0 ==> {
            &&& r == None::<Point2>
            &&& final(tr)@ == old(tr)@
            &&& final(features)@ == old(features)@
            &&& final(out_intersections)@ == old(out_intersections)@
            &&& final(out_extra)@ == old(out_extra)@
        },
        mask_spec(*vg, x as int, y as int) != 0 ==> {
            let v = cell_vertex(*vg, *f, accuracy as int, x as int, y as int);
            &&& r == Some(v)
            &&& in_square(v, vg.square(x as int, y as int))
            &&& final(out_intersections)@ == old(out_intersections)@ + cell_points(*vg, *f, accuracy as int, x as int, y as int)
            &&& final(out_extra)@ == old(out_extra)@ + cell_partners(*vg, x as int, y as int)
            &&& final(tr)@ == old(tr)@ + fan(v, final(out_intersections)@, final(out_extra)@)
            &&& final(features)@ == old(features)@.update(y * vg.size_x + x, Some(v))
        },
{
    proof {
        reveal(cell_vertex);
    }
    let sit = crossing_mask(vg, x, y);
    if sit > 0 {
        let mut tangents: Vec<Line2> = Vec::new();
        collect_edges(vg, x, y, f, accuracy, &mut tangents, out_intersections, out_extra);
        let sq = vg.square2(x, y);
        let v = sample_qef_brute(sq, accuracy, &tangents);
        push_fan(tr, v, out_intersections, out_extra);
        proof {
            lemma_flat_in(vg.size_x as int, vg.size_y as int, x as int, y as int);
            assert(vg.size_x * vg.size_y <= (vg.size_x + 1) * (vg.size_y + 1)) by (nonlinear_arith)
                requires 0 <= vg.size_x, 0 <= vg.size_y;
        }
        features.set(y * vg.size_x + x, Some(v));
        Some(v)
    } else {
        None
    }
}

/// Column and row of the cell with row-major index `t`.
pub open spec fn cx(vg: VoxelGrid2, t: int) -> int {
    t % (vg.size_x as int)
}

pub open spec fn cy(vg: VoxelGrid2, t: int) -> int {
    t / (vg.size_x as int)
}

pub open spec fn n_cells(vg: VoxelGrid2) -> int {
    vg.size_x * vg.size_y
}

pub open spec fn mask_at(vg: VoxelGrid2, t: int) -> int {
    mask_spec(vg, cx(vg, t), cy(vg, t))
}

/// The right edge of cell `t` crosses and the cell has a right neighbour.
pub open spec fn right_cross(vg: VoxelGrid2, t: int) -> bool {
    crosses(vg, cx(vg, t), cy(vg, t), 1) && cx(vg, t) + 1 < vg.size_x
}

/// The top edge of cell `t` crosses and the cell has a neighbour above.
pub open spec fn top_cross(vg: VoxelGrid2, t: int) -> bool {
    crosses(vg, cx(vg, t), cy(vg, t), 2) && cy(vg, t) + 1 < vg.size_y
}

/// Whether the traversal has computed the feature of cell `t` once it has
/// visited cells `0..k`: on visiting a crossing cell, or a neighbour to its left
/// or below that reaches it over a crossing edge.
pub open spec fn computed_before(vg: VoxelGrid2, t: int, k: int) -> bool {
    ||| (t < k && mask_at(vg, t) != 0)
    ||| (t % (vg.size_x as int) != 0 && t - 1 < k && right_cross(vg, t - 1))
    ||| (t >= vg.size_x && t - vg.size_x < k && top_cross(vg, t - vg.size_x))
}

pub open spec fn vertex_at(vg: VoxelGrid2, f: DenFn2, n: int, t: int) -> Point2 {
    cell_vertex(vg, f, n, cx(vg, t), cy(vg, t))
}

#[verifier::opaque]
pub open spec fn fan_at(vg: VoxelGrid2, f: DenFn2, n: int, t: int) -> Seq<Triangle2> {
    cell_fan(vg, f, n, cx(vg, t), cy(vg, t))
}

/// Triangles emitted while visiting cell `c`: the fans of the cells whose
/// feature is computed for the first time there, or the two triangles of a
/// uniform cell whose first corner is inside.
pub open spec fn step_triangles(vg: VoxelGrid2, f: DenFn2, n: int, c: int) -> Seq<Triangle2> {
    if mask_at(vg, c) != 0 {
        (if computed_before(vg, c, c) { Seq::empty() } else { fan_at(vg, f, n, c) }) + (if right_cross(vg, c)
            && !computed_before(vg, c + 1, c) {
            fan_at(vg, f, n, c + 1)
        } else {
            Seq::empty()
        }) + (if top_cross(vg, c) && !computed_before(vg, c + vg.size_x, c) {
            fan_at(vg, f, n, c + vg.size_x)
        } else {
            Seq::empty()
        })
    } else if cval(vg, cx(vg, c), cy(vg, c), 0) < 0 {
        cell_quad(vg, cx(vg, c), cy(vg, c))
    } else {
        Seq::empty()
    }
}

/// Contour lines emitted while visiting cell `c`: from its feature to the
/// feature of each neighbour, right then above, across a crossing edge.
pub open spec fn step_lines(vg: VoxelGrid2, f: DenFn2, n: int, c: int) -> Seq<Line2> {
    if mask_at(vg, c) != 0 {
        opt(right_cross(vg, c), Line2 { start: vertex_at(vg, f, n, c), end: vertex_at(vg, f, n, c + 1) }) + opt(
            top_cross(vg, c),
            Line2 { start: vertex_at(vg, f, n, c), end: vertex_at(vg, f, n, c + vg.size_x) },
        )
    } else {
        Seq::empty()
    }
}

pub open spec fn triangles_upto(vg: VoxelGrid2, f: DenFn2, n: int, k: nat) -> Seq<Triangle2>
    decreases k,
{
    if k == 0 { Seq::empty() } else { triangles_upto(vg, f, n, (k - 1) as nat) + step_triangles(vg, f, n, k - 1) }
}

pub open spec fn lines_upto(vg: VoxelGrid2, f: DenFn2, n: int, k: nat) -> Seq<Line2>
    decreases k,
{
    if k == 0 { Seq::empty() } else { lines_upto(vg, f, n, (k - 1) as nat) + step_lines(vg, f, n, k - 1) }
}

/// The caches hold cell `t`'s feature and its edge records.
pub open spec fn cell_cached(
    vg: VoxelGrid2,
    f: DenFn2,
    n: int,
    features: Seq<Option<Point2>>,
    intersections: Seq<Option<Vec<Point2>>>,
    extras: Seq<Option<Vec<Point2>>>,
    t: int,
) -> bool {
    &&& features[t] == Some(vertex_at(vg, f, n, t))
    &&& intersections[t].is_some()
    &&& intersections[t].unwrap()@ == cell_points(vg, f, n, cx(vg, t), cy(vg, t))
    &&& extras[t].is_some()
    &&& extras[t].unwrap()@ == cell_partners(vg, cx(vg, t), cy(vg, t))
}

/// The caches hold nothing for cell `t`.
pub open spec fn cell_empty(
    features: Seq<Option<Point2>>,
    intersections: Seq<Option<Vec<Point2>>>,
    extras: Seq<Option<Vec<Point2>>>,
    t: int,
) -> bool {
    features[t] is None && intersections[t] is None && extras[t] is None
}

/// Every cell of the caches is either fully computed or untouched.
pub open spec fn caches_ok(
    vg: VoxelGrid2,
    f: DenFn2,
    n: int,
    features: Seq<Option<Point2>>,
    intersections: Seq<Option<Vec<Point2>>>,
    extras: Seq<Option<Vec<Point2>>>,
) -> bool {
    &&& features.len() == n_cells(vg)
    &&& intersections.len() == n_cells(vg)
    &&& extras.len() == n_cells(vg)
    &&& forall|t: int|
        0 <= t < n_cells(vg) ==> cell_cached(vg, f, n, features, intersections, extras, t) || cell_empty(
            features,
            intersections,
            extras,
            t,
        )
}

pub proof fn lemma_cell_index(sx: int, x: int, y: int)
    requires
        0 <= x < sx,
        0 <= y,
    ensures
        (y * sx + x) % sx == x,
        (y * sx + x) / sx == y,
{
    lemma_fundamental_div_mod_converse(y * sx + x, sx, y, x);
}

proof fn lemma_cell_of(vg: VoxelGrid2, t: int)
    requires
        vg.wf(),
        0 <= t < n_cells(vg),
    ensures
        0 <= cx(vg, t) < vg.size_x,
        0 <= cy(vg, t) < vg.size_y,
        t == cy(vg, t) * vg.size_x + cx(vg, t),
{
    let sx = vg.size_x as int;
    lemma_fundamental_div_mod(t, sx);
    lemma_mod_pos_bound(t, sx);
    vstd::arithmetic::div_mod::lemma_div_pos_is_pos(t, sx);
    assert(t / sx < vg.size_y) by (nonlinear_arith)
        requires t == sx * (t / sx) + t % sx, 0 <= t % sx, t < sx * vg.size_y, 0 < sx;
    assert(sx * (t / sx) == (t / sx) * sx) by (nonlinear_arith);
}

/// The neighbour across a crossing right or top edge is a crossing cell too,
/// and sits at the expected index.
proof fn lemma_neighbours(vg: VoxelGrid2, c: int)
    requires
        vg.wf(),
        0 <= c < n_cells(vg),
    ensures
        right_cross(vg, c) ==> {
            &&& c + 1 < n_cells(vg)
            &&& cx(vg, c + 1) == cx(vg, c) + 1
            &&& cy(vg, c + 1) == cy(vg, c)
            &&& (c + 1) % (vg.size_x as int) != 0
            &&& mask_at(vg, c + 1) != 0
        },
        top_cross(vg, c) ==> {
            &&& c + vg.size_x < n_cells(vg)
            &&& cx(vg, c + vg.size_x) == cx(vg, c)
            &&& cy(vg, c + vg.size_x) == cy(vg, c) + 1
            &&& mask_at(vg, c + vg.size_x) != 0
        },
        vg.size_x == 1 ==> !right_cross(vg, c),
{
    let sx = vg.size_x as int;
    lemma_cell_of(vg, c);
    let x = cx(vg, c);
    let y = cy(vg, c);
    if right_cross(vg, c) {
        lemma_cell_index(sx, x + 1, y);
        assert(c + 1 == y * sx + (x + 1));
        lemma_flat_in(sx, vg.size_y as int, x + 1, y);
    }
    if top_cross(vg, c) {
        lemma_cell_index(sx, x, y + 1);
        assert((y + 1) * sx + x == c + sx) by (nonlinear_arith)
            requires c == y * sx + x;
        lemma_flat_in(sx, vg.size_y as int, x, y + 1);
    }
}

/// What visiting cell `c` adds to the computed cells.
proof fn lemma_step(vg: VoxelGrid2, t: int, c: int)
    requires
        vg.wf(),
        0 <= c < n_cells(vg),
        0 <= t,
    ensures
        computed_before(vg, t, c + 1) == (computed_before(vg, t, c) || (t == c && mask_at(vg, c) != 0) || (t == c
            + 1 && right_cross(vg, c)) || (t == c + vg.size_x && top_cross(vg, c))),
{
    lemma_neighbours(vg, c);
}

/// Once every cell has been visited, exactly the crossing cells are computed.
proof fn lemma_all_visited(vg: VoxelGrid2, t: int)
    requires
        vg.wf(),
        0 <= t < n_cells(vg),
    ensures
        computed_before(vg, t, n_cells(vg)) == (mask_at(vg, t) != 0),
{
    let sx = vg.size_x as int;
    if t % sx != 0 && right_cross(vg, t - 1) {
        lemma_cell_of(vg, t);
        lemma_fundamental_div_mod(t, sx);
        lemma_neighbours(vg, t - 1);
        lemma_cell_of(vg, t - 1);
    }
    if t >= sx && top_cross(vg, t - sx) {
        lemma_neighbours(vg, t - sx);
    }
}

/// The effect of one fetch-or-compute of cell `t` on the caches and the
/// triangle list: afterwards the cell is cached and every other cell is as it
/// was; the cell's fan triangles are appended exactly when it was not cached.
pub open spec fn fetched(
    vg: VoxelGrid2,
    f: DenFn2,
    n: int,
    t: int,
    fe0: Seq<Option<Point2>>,
    in0: Seq<Option<Vec<Point2>>>,
    ex0: Seq<Option<Vec<Point2>>>,
    tr0: Seq<Triangle2>,
    fe1: Seq<Option<Point2>>,
    in1: Seq<Option<Vec<Point2>>>,
    ex1: Seq<Option<Vec<Point2>>>,
    tr1: Seq<Triangle2>,
) -> bool {
    &&& caches_ok(vg, f, n, fe1, in1, ex1)
    &&& cell_cached(vg, f, n, fe1, in1, ex1, t)
    &&& forall|j: int| 0 <= j < n_cells(vg) && j != t ==> {
        &&& fe1[j] == fe0[j]
        &&& in1[j] == in0[j]
        &&& ex1[j] == ex0[j]
    }
    &&& fe0[t] is Some ==> tr1 == tr0 && fe1 == fe0
    &&& fe0[t] is None ==> tr1 == tr0 + fan_at(vg, f, n, t)
}

/// Fetch-or-compute of cell `(x, y)`'s feature: a cell already computed is
/// answered from the caches and nothing changes; otherwise its feature is
/// computed once, its edge records are cached, and its fan triangles are
/// appended to `tr`.
pub fn fetch_or_compute(
    vg: &VoxelGrid2,
    f: &DenFn2,
    accuracy: usize,
    x: usize,
    y: usize,
    tr: &mut Vec<Triangle2>,
    features: &mut Vec<Option<Point2>>,
    intersections: &mut Vec<Option<Vec<Point2>>>,
    extras: &mut Vec<Option<Vec<Point2>>>,
) -> (r: Option<Point2>)
    requires
        cell_args(*vg, *f, accuracy as int, x as int, y as int),
        mask_spec(*vg, x as int, y as int) != 0,
        caches_ok(*vg, *f, accuracy as int, old(features)@, old(intersections)@, old(extras)@),
    ensures
        r == Some(vertex_at(*vg, *f, accuracy as int, y * vg.size_x + x)),
        fetched(
            *vg,
            *f,
            accuracy as int,
            y * vg.size_x + x,
            old(features)@,
            old(intersections)@,
            old(extras)@,
            old(tr)@,
            final(features)@,
            final(intersections)@,
            final(extras)@,
            final(tr)@,
        ),
{
    let ghost n = accuracy as int;
    proof {
        reveal(fan_at);
        lemma_flat_in(vg.size_x as int, vg.size_y as int, x as int, y as int);
        assert(vg.size_x * vg.size_y <= (vg.size_x + 1) * (vg.size_y + 1)) by (nonlinear_arith)
            requires 0 <= vg.size_x, 0 <= vg.size_y;
        lemma_cell_index(vg.size_x as int, x as int, y as int);
    }
    let t = y * vg.size_x + x;
    proof {
        assert(cell_cached(*vg, *f, n, features@, intersections@, extras@, t as int) || cell_empty(
            features@,
            intersections@,
            extras@,
            t as int,
        ));
    }
    let possible = features[t];
    if possible.is_none() {
        let mut ints: Vec<Point2> = Vec::new();
        let mut ext: Vec<Point2> = Vec::new();
        let ret = make_vertex(vg, tr, x, y, f, accuracy, features, &mut ints, &mut ext);
        proof {
            assert(ints@ =~= cell_points(*vg, *f, n, x as int, y as int));
            assert(ext@ =~= cell_partners(*vg, x as int, y as int));
        }
        intersections.set(t, Some(ints));
        extras.set(t, Some(ext));
        proof {
            assert forall|j: int| 0 <= j < n_cells(*vg) implies cell_cached(*vg, *f, n, features@, intersections@, extras@, j)
                || cell_empty(features@, intersections@, extras@, j) by {
                if j != t {
                    assert(cell_cached(*vg, *f, n, old(features)@, old(intersections)@, old(extras)@, j) || cell_empty(
                        old(features)@,
                        old(intersections)@,
                        old(extras)@,
                        j,
                    ));
                }
            }
        }
        ret
    } else {
        possible
    }
}

/// Through a fetch, the set of cached cells grows by the fetched cell, and the
/// fan is appended exactly when the cell was not cached before.
proof fn lemma_fetch(
    vg: VoxelGrid2,
    f: DenFn2,
    n: int,
    t: int,
    cached: spec_fn(int) -> bool,
    fe0: Seq<Option<Point2>>,
    in0: Seq<Option<Vec<Point2>>>,
    ex0: Seq<Option<Vec<Point2>>>,
    tr0: Seq<Triangle2>,
    fe1: Seq<Option<Point2>>,
    in1: Seq<Option<Vec<Point2>>>,
    ex1: Seq<Option<Vec<Point2>>>,
    tr1: Seq<Triangle2>,
)
    requires
        0 <= t < n_cells(vg),
        caches_ok(vg, f, n, fe0, in0, ex0),
        forall|j: int| 0 <= j < n_cells(vg) ==> #[trigger] cell_cached(vg, f, n, fe0, in0, ex0, j) == cached(j),
        fetched(vg, f, n, t, fe0, in0, ex0, tr0, fe1, in1, ex1, tr1),
    ensures
        forall|j: int|
            0 <= j < n_cells(vg) ==> #[trigger] cell_cached(vg, f, n, fe1, in1, ex1, j) == (cached(j) || j == t),
        tr1 == tr0 + (if cached(t) { Seq::<Triangle2>::empty() } else { fan_at(vg, f, n, t) }),
{
    assert(cell_cached(vg, f, n, fe0, in0, ex0, t) || cell_empty(fe0, in0, ex0, t));
    assert(cell_cached(vg, f, n, fe0, in0, ex0, t) == cached(t));
    if cached(t) {
        assert(tr0 + Seq::<Triangle2>::empty() =~= tr0);
    }
    assert forall|j: int| 0 <= j < n_cells(vg) implies #[trigger] cell_cached(vg, f, n, fe1, in1, ex1, j) == (cached(j)
        || j == t) by {
        if j != t {
            assert(cell_cached(vg, f, n, fe0, in0, ex0, j) == cached(j));
        }
    }
}

/// The mesh extracted from a grid, and the per-cell caches it was built from.
pub struct ContourData {
    pub lines: Vec<Line2>,
    pub triangles: Vec<Triangle2>,
    pub features: Vec<Option<Point2>>,
    pub intersections: Vec<Option<Vec<Point2>>>,
    pub extras: Vec<Option<Vec<Point2>>>,
}

fn empty_caches(len: usize) -> (r: (Vec<Option<Point2>>, Vec<Option<Vec<Point2>>>, Vec<Option<Vec<Point2>>>))
    ensures
        r.0@.len() == len,
        r.1@.len() == len,
        r.2@.len() == len,
        forall|t: int| 0 <= t < len ==> cell_empty(r.0@, r.1@, r.2@, t),
{
    let mut features: Vec<Option<Point2>> = Vec::new();
    let mut intersections: Vec<Option<Vec<Point2>>> = Vec::new();
    let mut extras: Vec<Option<Vec<Point2>>> = Vec::new();
    let mut i: usize = 0;
    while i < len
        invariant
            i <= len,
            features@.len() == i,
            intersections@.len() == i,
            extras@.len() == i,
            forall|t: int| 0 <= t < i ==> cell_empty(features@, intersections@, extras@, t),
        decreases len - i,
    {
        let ghost (f0, i0, e0) = (features@, intersections@, extras@);
        features.push(None);
        intersections.push(None);
        extras.push(None);
        proof {
            assert forall|t: int| 0 <= t < i + 1 implies cell_empty(features@, intersections@, extras@, t) by {
                if t < i {
                    assert(cell_empty(f0, i0, e0, t));
                    assert(features@[t] == f0[t] && intersections@[t] == i0[t] && extras@[t] == e0[t]);
                }
            }
        }
        i = i + 1;
    }
    (features, intersections, extras)
}

/// The cache invariant of the traversal after visiting cells `0..k`.
pub open spec fn caches_at(
    vg: VoxelGrid2,
    f: DenFn2,
    n: int,
    features: Seq<Option<Point2>>,
    intersections: Seq<Option<Vec<Point2>>>,
    extras: Seq<Option<Vec<Point2>>>,
    k: int,
) -> bool {
    &&& caches_ok(vg, f, n, features, intersections, extras)
    &&& forall|t: int|
        0 <= t < n_cells(vg) ==> (#[trigger] cell_cached(vg, f, n, features, intersections, extras, t)
            == computed_before(vg, t, k))
}

/// The triangles of a visit of a crossing cell are those of `step_triangles`.
proof fn lemma_traversal_step(
    vg: VoxelGrid2,
    f: DenFn2,
    n: int,
    c: int,
    tr0: Seq<Triangle2>,
    tr1: Seq<Triangle2>,
    tr2: Seq<Triangle2>,
    tr3: Seq<Triangle2>,
)
    requires
        mask_at(vg, c) != 0,
        tr1 == tr0 + (if computed_before(vg, c, c) { Seq::<Triangle2>::empty() } else { fan_at(vg, f, n, c) }),
        tr2 == tr1 + (if right_cross(vg, c) && !computed_before(vg, c + 1, c) { fan_at(vg, f, n, c + 1) } else { Seq::<Triangle2>::empty() }),
        tr3 == tr2 + (if top_cross(vg, c) && !computed_before(vg, c + vg.size_x, c) { fan_at(vg, f, n, c + vg.size_x) } else { Seq::<Triangle2>::empty() }),
    ensures
        tr3 == tr0 + step_triangles(vg, f, n, c),
{
    assert(tr3 =~= tr0 + step_triangles(vg, f, n, c));
}

/// What an extraction returns: the lines and triangles of the row-major
/// traversal, and caches that hold exactly the crossing cells.
pub open spec fn contour_ok(vg: VoxelGrid2, f: DenFn2, n: int, r: ContourData) -> bool {
    &&& r.lines@ == lines_upto(vg, f, n, n_cells(vg) as nat)
    &&& r.triangles@ == triangles_upto(vg, f, n, n_cells(vg) as nat)
    &&& caches_ok(vg, f, n, r.features@, r.intersections@, r.extras@)
    &&& forall|t: int| 0 <= t < n_cells(vg) ==> (#[trigger] r.features@[t] is Some) == (mask_at(vg, t) != 0)
}

/// Two extractions from the same grid, field and accuracy agree on every line,
/// every triangle and every feature.
pub proof fn lemma_contour_deterministic(vg: VoxelGrid2, f: DenFn2, n: int, r1: ContourData, r2: ContourData)
    requires
        contour_ok(vg, f, n, r1),
        contour_ok(vg, f, n, r2),
    ensures
        r1.lines@ == r2.lines@,
        r1.triangles@ == r2.triangles@,
        r1.features@ == r2.features@,
{
    assert forall|t: int| 0 <= t < n_cells(vg) implies r1.features@[t] == r2.features@[t] by {
        assert(r1.features@[t] is Some == r2.features@[t] is Some);
        assert(cell_cached(vg, f, n, r1.features@, r1.intersections@, r1.extras@, t) || cell_empty(
            r1.features@,
            r1.intersections@,
            r1.extras@,
            t,
        ));
        assert(cell_cached(vg, f, n, r2.features@, r2.intersections@, r2.extras@, t) || cell_empty(
            r2.features@,
            r2.intersections@,
            r2.extras@,
            t,
        ));
    }
    assert(r1.features@ =~= r2.features@);
}

/// Cell `t`'s feature is computed while visiting cell `c`, not before.
pub open spec fn solved_at(vg: VoxelGrid2, t: int, c: int) -> bool {
    computed_before(vg, t, c + 1) && !computed_before(vg, t, c)
}

proof fn lemma_computed_monotone(vg: VoxelGrid2, t: int, k1: int, k2: int)
    requires
        k1 <= k2,
        computed_before(vg, t, k1),
    ensures
        computed_before(vg, t, k2),
{
}

proof fn lemma_solved_somewhere(vg: VoxelGrid2, t: int, k: int)
    requires
        vg.wf(),
        0 <= t < n_cells(vg),
        0 <= k,
        computed_before(vg, t, k),
    ensures
        exists|c: int| 0 <= c < k && #[trigger] solved_at(vg, t, c),
    decreases k,
{
    if k == 0 {
        if t == 0 {
            assert(vg.size_x > 0) by (nonlinear_arith)
                requires 0 <= t < vg.size_x * vg.size_y, 0 <= vg.size_x;
            lemma_fundamental_div_mod_converse(0, vg.size_x as int, 0, 0);
        }
        assert(!computed_before(vg, t, 0));
    } else if computed_before(vg, t, k - 1) {
        lemma_solved_somewhere(vg, t, k - 1);
        let c = choose|c: int| 0 <= c < k - 1 && #[trigger] solved_at(vg, t, c);
        assert(solved_at(vg, t, c));
    } else {
        assert(solved_at(vg, t, k - 1));
    }
}

/// Over a full traversal the feature of every crossing cell is computed at
/// exactly one visit, and that of a uniform cell at none.
pub proof fn lemma_solved_once(vg: VoxelGrid2, t: int)
    requires
        vg.wf(),
        0 <= t < n_cells(vg),
    ensures
        mask_at(vg, t) != 0 ==> exists|c: int| 0 <= c < n_cells(vg) && #[trigger] solved_at(vg, t, c),
        forall|c1: int, c2: int| #[trigger] solved_at(vg, t, c1) && #[trigger] solved_at(vg, t, c2) ==> c1 == c2,
        mask_at(vg, t) == 0 ==> forall|c: int| 0 <= c < n_cells(vg) ==> !#[trigger] solved_at(vg, t, c),
{
    lemma_all_visited(vg, t);
    if mask_at(vg, t) != 0 {
        lemma_solved_somewhere(vg, t, n_cells(vg));
    } else {
        assert forall|c: int| 0 <= c < n_cells(vg) implies !#[trigger] solved_at(vg, t, c) by {
            if solved_at(vg, t, c) {
                lemma_computed_monotone(vg, t, c + 1, n_cells(vg));
            }
        }
    }
    assert forall|c1: int, c2: int| #[trigger] solved_at(vg, t, c1) && #[trigger] solved_at(vg, t, c2) implies c1 == c2 by {
        if c1 < c2 {
            lemma_computed_monotone(vg, t, c1 + 1, c2);
        } else if c2 < c1 {
            lemma_computed_monotone(vg, t, c2 + 1, c1);
        }
    }
}

/// A uniform cell whose first corner is inside is filled with exactly two
/// triangles and draws no line.
pub proof fn lemma_uniform_cell(vg: VoxelGrid2, f: DenFn2, n: int, c: int)
    requires
        mask_at(vg, c) == 0,
        cval(vg, cx(vg, c), cy(vg, c), 0) < 0,
    ensures
        step_triangles(vg, f, n, c) == cell_quad(vg, cx(vg, c), cy(vg, c)),
        step_triangles(vg, f, n, c).len() == 2,
        step_lines(vg, f, n, c).len() == 0,
{
}

/// A uniform cell whose first corner is not inside emits nothing.
pub proof fn lemma_uniform_outside_cell(vg: VoxelGrid2, f: DenFn2, n: int, c: int)
    requires
        mask_at(vg, c) == 0,
        cval(vg, cx(vg, c), cy(vg, c), 0) >= 0,
    ensures
        step_triangles(vg, f, n, c).len() == 0,
        step_lines(vg, f, n, c).len() == 0,
{
}

/// One step of the traversal: visits cell `k`, after cells `0..k`.
#[verifier::rlimit(40)]
fn visit_cell(
    vg: &VoxelGrid2,
    f: &DenFn2,
    accuracy: usize,
    k: usize,
    res1: &mut Vec<Line2>,
    res2: &mut Vec<Triangle2>,
    features: &mut Vec<Option<Point2>>,
    intersections: &mut Vec<Option<Vec<Point2>>>,
    extras: &mut Vec<Option<Vec<Point2>>>,
)
    requires
        vg.wf(),
        f.wf(),
        1 <= accuracy <= ACCURACY_MAX,
        k < n_cells(*vg),
        caches_at(*vg, *f, accuracy as int, old(features)@, old(intersections)@, old(extras)@, k as int),
        old(res1)@ == lines_upto(*vg, *f, accuracy as int, k as nat),
        old(res2)@ == triangles_upto(*vg, *f, accuracy as int, k as nat),
    ensures
        caches_at(*vg, *f, accuracy as int, final(features)@, final(intersections)@, final(extras)@, k + 1),
        final(res1)@ == lines_upto(*vg, *f, accuracy as int, (k + 1) as nat),
        final(res2)@ == triangles_upto(*vg, *f, accuracy as int, (k + 1) as nat),
{
    let ghost n = accuracy as int;
    let sx = vg.size_x;
    let sy = vg.size_y;
    proof {
        lemma_cell_of(*vg, k as int);
        lemma_neighbours(*vg, k as int);
    }
    let x = k % sx;
    let y = k / sx;
    let ghost c = k as int;
    let ghost tr0 = res2@;
    let ghost fe0 = features@;
    let sit = crossing_mask(vg, x, y);
    if sit > 0 {
        let ghost in0 = intersections@;
        let ghost ex0 = extras@;
        let ghost p0: spec_fn(int) -> bool = |j: int| computed_before(*vg, j, c);
        let interpolated_vertex = fetch_or_compute(vg, f, accuracy, x, y, res2, features, intersections, extras).unwrap();
        proof {
            lemma_fetch(*vg, *f, n, c, p0, fe0, in0, ex0, tr0, features@, intersections@, extras@, res2@);
        }
        let ghost (fe1, in1, ex1, tr1) = (features@, intersections@, extras@, res2@);
        let ghost p1: spec_fn(int) -> bool = |j: int| computed_before(*vg, j, c) || j == c;
        let p1v = vg.get(x + 1, y);
        let p2v = vg.get(x, y + 1);
        let p3v = vg.get(x + 1, y + 1);
        let mut vert1: Option<Point2> = None;
        let mut vert2: Option<Point2> = None;
        if !const_sign(p1v, p3v) && x + 1 < sx {
            proof {
                lemma_cell_index(sx as int, (x + 1) as int, y as int);
            }
            vert1 = fetch_or_compute(vg, f, accuracy, x + 1, y, res2, features, intersections, extras);
            proof {
                lemma_fetch(*vg, *f, n, c + 1, p1, fe1, in1, ex1, tr1, features@, intersections@, extras@, res2@);
            }
        }
        let ghost (fe2, in2, ex2, tr2) = (features@, intersections@, extras@, res2@);
        let ghost p2: spec_fn(int) -> bool = |j: int| computed_before(*vg, j, c) || j == c || (j == c + 1 && right_cross(*vg, c));
        proof {
            if !right_cross(*vg, c) {
                assert(tr1 + Seq::<Triangle2>::empty() =~= tr1);
            }
            assert(tr2 == tr1 + (if right_cross(*vg, c) && !computed_before(*vg, c + 1, c) { fan_at(*vg, *f, n, c + 1) } else { Seq::<Triangle2>::empty() }));
            assert forall|j: int| 0 <= j < n_cells(*vg) implies #[trigger] cell_cached(*vg, *f, n, fe2, in2, ex2, j) == p2(j) by {
                if !right_cross(*vg, c) {
                    assert(cell_cached(*vg, *f, n, fe1, in1, ex1, j) == p1(j));
                }
            }
        }
        if !const_sign(p3v, p2v) && y + 1 < sy {
            proof {
                lemma_cell_index(sx as int, x as int, (y + 1) as int);
                assert((y + 1) * sx + x == c + sx) by (nonlinear_arith)
                    requires c == y * sx + x;
            }
            vert2 = fetch_or_compute(vg, f, accuracy, x, y + 1, res2, features, intersections, extras);
            proof {
                lemma_fetch(*vg, *f, n, c + sx, p2, fe2, in2, ex2, tr2, features@, intersections@, extras@, res2@);
            }
        }
        proof {
            if !top_cross(*vg, c) {
                assert(tr2 + Seq::<Triangle2>::empty() =~= tr2);
            }
            lemma_traversal_step(*vg, *f, n, c, tr0, tr1, tr2, res2@);
            assert forall|t: int| 0 <= t < n_cells(*vg) implies (#[trigger] cell_cached(*vg, *f, n, features@, intersections@, extras@, t)
                == computed_before(*vg, t, c + 1)) by {
                lemma_step(*vg, t, c);
                if !top_cross(*vg, c) {
                    assert(cell_cached(*vg, *f, n, fe2, in2, ex2, t) == p2(t));
                }
            }
        }
        let ghost ln0 = res1@;
        if vert1.is_some() {
            res1.push(Line2 { start: interpolated_vertex, end: vert1.unwrap() });
        }
        if vert2.is_some() {
            res1.push(Line2 { start: interpolated_vertex, end: vert2.unwrap() });
        }
        proof {
            assert(res1@ =~= ln0 + step_lines(*vg, *f, n, c));
        }
    } else {
        let p0 = vg.get(x, y);
        if p0 < 0 {
            let v0 = vg.get_point(x, y);
            let v1 = vg.get_point(x + 1, y);
            let v2 = vg.get_point(x, y + 1);
            let v3 = vg.get_point(x + 1, y + 1);
            res2.push(Triangle2 { p1: v0, p2: v1, p3: v3 });
            res2.push(Triangle2 { p1: v0, p2: v3, p3: v2 });
        }
        proof {
            assert(res2@ =~= tr0 + step_triangles(*vg, *f, n, c));
            assert(res1@ =~= res1@ + step_lines(*vg, *f, n, c));
            assert forall|t: int| 0 <= t < n_cells(*vg) implies (#[trigger] cell_cached(*vg, *f, n, features@, intersections@, extras@, t)
                == computed_before(*vg, t, c + 1)) by {
                lemma_step(*vg, t, c);
            }
        }
    }
}

/// Extracts the contour of the sampled grid: visits the cells row by row, fills
/// each uniform cell whose first corner is inside with two triangles, and joins
/// the feature of each crossing cell to those of its right and upper neighbours
/// across crossing edges, computing each feature once.
pub fn make_contour(vg: &VoxelGrid2, f: &DenFn2, accuracy: usize) -> (r: ContourData)
    requires
        vg.wf(),
        f.wf(),
        1 <= accuracy <= ACCURACY_MAX,
    ensures
        contour_ok(*vg, *f, accuracy as int, r),
{
    let ghost n = accuracy as int;
    let sx = vg.size_x;
    let sy = vg.size_y;
    proof {
        assert(sx * sy <= (sx + 1) * (sy + 1)) by (nonlinear_arith)
            requires 0 <= sx, 0 <= sy;
    }
    let total = sx * sy;
    let (mut features, mut intersections, mut extras) = empty_caches(total);
    let mut res1: Vec<Line2> = Vec::new();
    let mut res2: Vec<Triangle2> = Vec::new();
    proof {
        assert forall|t: int| 0 <= t < n_cells(*vg) implies (#[trigger] cell_cached(*vg, *f, n, features@, intersections@, extras@, t)
            == computed_before(*vg, t, 0)) by {
            assert(cell_empty(features@, intersections@, extras@, t));
            if t == 0 {
                assert(sx > 0) by (nonlinear_arith)
                    requires 0 <= t < sx * sy, 0 <= sx;
                lemma_fundamental_div_mod_converse(0, sx as int, 0, 0);
            }
        }
    }
    let mut k: usize = 0;
    while k < total
        invariant
            vg.wf(),
            f.wf(),
            1 <= accuracy <= ACCURACY_MAX,
            n == accuracy,
            sx == vg.size_x,
            sy == vg.size_y,
            total == n_cells(*vg),
            k <= total,
            caches_at(*vg, *f, n, features@, intersections@, extras@, k as int),
            res1@ == lines_upto(*vg, *f, n, k as nat),
            res2@ == triangles_upto(*vg, *f, n, k as nat),
        decreases total - k,
    {
        visit_cell(vg, f, accuracy, k, &mut res1, &mut res2, &mut features, &mut intersections, &mut extras);
        k = k + 1;
    }
    proof {
        assert forall|t: int| 0 <= t < n_cells(*vg) implies (#[trigger] features@[t] is Some) == (mask_at(*vg, t) != 0) by {
            lemma_all_visited(*vg, t);
            assert(cell_cached(*vg, *f, n, features@, intersections@, extras@, t) == computed_before(*vg, t, total as int));
            assert(cell_cached(*vg, *f, n, features@, intersections@, extras@, t) || cell_empty(features@, intersections@, extras@, t));
        }
    }
    ContourData { lines: res1, triangles: res2, features, intersections, extras }
}

/// The line that the cache-only rebuild draws for cell `(x, y)`: from its
/// cached feature to the cached feature of its right neighbour, where the
/// right edge crosses and both are cached.
pub open spec fn aux_line(vg: VoxelGrid2, features: Seq<Option<Point2>>, x: int, y: int) -> Seq<Line2> {
    let t = y * vg.size_x + x;
    if features[t] is Some && crosses(vg, x, y, 1) && features[t + 1] is Some {
        seq![Line2 { start: features[t].unwrap(), end: features[t + 1].unwrap() }]
    } else {
        Seq::empty()
    }
}

pub open spec fn aux_line_row(vg: VoxelGrid2, features: Seq<Option<Point2>>, y: int, k: nat) -> Seq<Line2>
    decreases k,
{
    if k == 0 { Seq::empty() } else { aux_line_row(vg, features, y, (k - 1) as nat) + aux_line(vg, features, k - 1, y) }
}

/// Lines of the first `k` rows, each over all but the last column.
pub open spec fn aux_lines(vg: VoxelGrid2, features: Seq<Option<Point2>>, k: nat) -> Seq<Line2>
    decreases k,
{
    if k == 0 {
        Seq::empty()
    } else {
        aux_lines(vg, features, (k - 1) as nat) + aux_line_row(vg, features, k - 1, (vg.size_x - 1) as nat)
    }
}

/// Rebuilds, from cached features alone, the contour lines to right
/// neighbours, over all cells but those of the last row and column.
pub fn make_lines(vg: &VoxelGrid2, features: &Vec<Option<Point2>>) -> (r: Vec<Line2>)
    requires
        vg.wf(),
        features@.len() == n_cells(*vg),
    ensures
        vg.size_x == 0 || vg.size_y == 0 ==> r@.len() == 0,
        vg.size_x > 0 && vg.size_y > 0 ==> r@ == aux_lines(*vg, features@, (vg.size_y - 1) as nat),
{
    let mut ret: Vec<Line2> = Vec::new();
    if vg.size_x == 0 || vg.size_y == 0 {
        return ret;
    }
    let sx = vg.size_x;
    let mut y: usize = 0;
    while y < vg.size_y - 1
        invariant
            vg.wf(),
            sx == vg.size_x,
            sx > 0,
            vg.size_y > 0,
            features@.len() == n_cells(*vg),
            y <= vg.size_y - 1,
            ret@ == aux_lines(*vg, features@, y as nat),
        decreases vg.size_y - y,
    {
        let mut x: usize = 0;
        let ghost r0 = ret@;
        while x < sx - 1
            invariant
                vg.wf(),
                sx == vg.size_x,
                sx > 0,
                features@.len() == n_cells(*vg),
                y < vg.size_y - 1,
                x <= sx - 1,
                ret@ == r0 + aux_line_row(*vg, features@, y as int, x as nat),
            decreases sx - x,
        {
            proof {
                lemma_flat_in(sx as int, vg.size_y as int, x as int, y as int);
                lemma_flat_in(sx as int, vg.size_y as int, x as int + 1, y as int);
                assert(vg.size_x * vg.size_y <= (vg.size_x + 1) * (vg.size_y + 1)) by (nonlinear_arith)
                    requires 0 <= vg.size_x, 0 <= vg.size_y;
            }
            let t = y * sx + x;
            let ghost r1 = ret@;
            let feature = features[t];
            if feature.is_some() {
                let p1 = vg.get(x + 1, y);
                let p3 = vg.get(x + 1, y + 1);
                let mut vert1: Option<Point2> = None;
                if !const_sign(p1, p3) {
                    vert1 = features[y * sx + (x + 1)];
                }
                if vert1.is_some() {
                    ret.push(Line2 { start: feature.unwrap(), end: vert1.unwrap() });
                }
            }
            proof {
                assert(ret@ =~= r1 + aux_line(*vg, features@, x as int, y as int));
            }
            x = x + 1;
        }
        y = y + 1;
    }
    ret
}

/// The triangles that the cache-only rebuild draws for cell `(x, y)`: the two
/// triangles of a uniform cell whose first corner is inside, or the fan of a
/// crossing cell from its cached feature and edge records.
pub open spec fn aux_cell_triangles(
    vg: VoxelGrid2,
    features: Seq<Option<Point2>>,
    intersections: Seq<Option<Vec<Point2>>>,
    extras: Seq<Option<Vec<Point2>>>,
    x: int,
    y: int,
) -> Seq<Triangle2> {
    let t = y * vg.size_x + x;
    if mask_spec(vg, x, y) == 0 {
        if cval(vg, x, y, 0) < 0 { cell_quad(vg, x, y) } else { Seq::empty() }
    } else if intersections[t] is Some && features[t] is Some {
        fan(features[t].unwrap(), intersections[t].unwrap()@, extras[t].unwrap()@)
    } else {
        Seq::empty()
    }
}

pub open spec fn aux_tri_row(
    vg: VoxelGrid2,
    features: Seq<Option<Point2>>,
    intersections: Seq<Option<Vec<Point2>>>,
    extras: Seq<Option<Vec<Point2>>>,
    y: int,
    k: nat,
) -> Seq<Triangle2>
    decreases k,
{
    if k == 0 {
        Seq::empty()
    } else {
        aux_tri_row(vg, features, intersections, extras, y, (k - 1) as nat) + aux_cell_triangles(
            vg,
            features,
            intersections,
            extras,
            k - 1,
            y,
        )
    }
}

pub open spec fn aux_triangles(
    vg: VoxelGrid2,
    features: Seq<Option<Point2>>,
    intersections: Seq<Option<Vec<Point2>>>,
    extras: Seq<Option<Vec<Point2>>>,
    k: nat,
) -> Seq<Triangle2>
    decreases k,
{
    if k == 0 {
        Seq::empty()
    } else {
        aux_triangles(vg, features, intersections, extras, (k - 1) as nat) + aux_tri_row(
            vg,
            features,
            intersections,
            extras,
            k - 1,
            vg.size_x as nat,
        )
    }
}

/// Each cached list of edge points has its partner list beside it.
pub open spec fn records_paired(
    intersections: Seq<Option<Vec<Point2>>>,
    extras: Seq<Option<Vec<Point2>>>,
) -> bool {
    &&& intersections.len() == extras.len()
    &&& forall|t: int|
        0 <= t < intersections.len() && (#[trigger] intersections[t]) is Some ==> extras[t] is Some
            && extras[t].unwrap()@.len() == intersections[t].unwrap()@.len()
}

/// Rebuilds, from the caches alone, the triangle list: quad fills of uniform
/// inside cells and the fans of crossing cells, row by row.
pub fn make_triangles(
    vg: &VoxelGrid2,
    features: &Vec<Option<Point2>>,
    intersections: &Vec<Option<Vec<Point2>>>,
    extra: &Vec<Option<Vec<Point2>>>,
) -> (r: Vec<Triangle2>)
    requires
        vg.wf(),
        features@.len() == n_cells(*vg),
        intersections@.len() == n_cells(*vg),
        records_paired(intersections@, extra@),
    ensures
        r@ == aux_triangles(*vg, features@, intersections@, extra@, vg.size_y as nat),
{
    let mut ret: Vec<Triangle2> = Vec::new();
    let sx = vg.size_x;
    let mut y: usize = 0;
    while y < vg.size_y
        invariant
            vg.wf(),
            sx == vg.size_x,
            features@.len() == n_cells(*vg),
            intersections@.len() == n_cells(*vg),
            records_paired(intersections@, extra@),
            y <= vg.size_y,
            ret@ == aux_triangles(*vg, features@, intersections@, extra@, y as nat),
        decreases vg.size_y - y,
    {
        let mut x: usize = 0;
        let ghost r0 = ret@;
        while x < sx
            invariant
                vg.wf(),
                sx == vg.size_x,
                features@.len() == n_cells(*vg),
                intersections@.len() == n_cells(*vg),
                records_paired(intersections@, extra@),
                y < vg.size_y,
                x <= sx,
                ret@ == r0 + aux_tri_row(*vg, features@, intersections@, extra@, y as int, x as nat),
            decreases sx - x,
        {
            proof {
                lemma_flat_in(sx as int, vg.size_y as int, x as int, y as int);
                assert(vg.size_x * vg.size_y <= (vg.size_x + 1) * (vg.size_y + 1)) by (nonlinear_arith)
                    requires 0 <= vg.size_x, 0 <= vg.size_y;
            }
            let t = y * sx + x;
            let ghost r1 = ret@;
            let sit = crossing_mask(vg, x, y);
            if sit == 0 {
                let p0 = vg.get(x, y);
                if p0 < 0 {
                    let v0 = vg.get_point(x, y);
                    let v1 = vg.get_point(x + 1, y);
                    let v2 = vg.get_point(x, y + 1);
                    let v3 = vg.get_point(x + 1, y + 1);
                    ret.push(Triangle2 { p1: v0, p2: v1, p3: v3 });
                    ret.push(Triangle2 { p1: v0, p2: v3, p3: v2 });
                }
            } else {
                if let Some(a) = &intersections[t] {
                    if let Some(v) = features[t] {
                        if let Some(b) = &extra[t] {
                            push_fan(&mut ret, v, a, b);
                        }
                    }
                }
            }
            proof {
                assert(ret@ =~= r1 + aux_cell_triangles(*vg, features@, intersections@, extra@, x as int, y as int));
            }
            x = x + 1;
        }
        y = y + 1;
    }
    ret
}

} // verus!
