//! How a layout answers when all distances and positions are doubled.
//!
//! Doubling is exact in single precision unless a result overflows or underflows, so the outcome is
//! stated where none does.
use crate::binary32::{law_order_of_values, lit, size, Binary32};
use crate::engine::{lemma_active_pairs_in_range, pairs_in_range};
use crate::model::{
    adjacent, at, curvature, delta, dist2, edge_index, edge_list, force, graph_of, ideal_of,
    is_distance, pair_count, pair_of, pull, row_edges, separated, tri_index, triangle, triangle_row,
    weighted, with_edges, without_edges, ActivePair, Axis, Edge, Graph, DISP_EPS_SQ, FOUR, TWO,
};
use crate::motion::{
    hessian_form, lane_square_sum, pair_sum, pair_term, square_sum, squared_length, step_at, step_size,
};
use crate::sampling::ONE;
use crate::scaled::{
    lemma_scaled_minus, lemma_scaled_negated, lemma_scaled_order, lemma_scaled_over,
    lemma_scaled_plus, lemma_scaled_root, lemma_scaled_same, lemma_scaled_times, lemma_scaled_zero,
    lemma_zero_size, over_clean, plus_clean, ratio, scaled, times_clean,
};
use crate::topology::{graph_valid, lemma_matrix_index, lemma_tri_index_bound};
use crate::weights::{law_empty_weights_restore, law_weights_keep_ideals};
use vstd::arithmetic::power2::{lemma2_to64, lemma_pow2_pos, pow2};
use vstd::prelude::*;

verus! {

/// Whether all coordinates of `n` nodes are twice as large.
pub open spec fn positions_doubled(n: nat, x: Seq<Binary32>, y: Seq<Binary32>) -> bool {
    forall|i: int| 0 <= i < 2 * n ==> scaled(#[trigger] x[i], y[i], 1)
}

/// Whether all ideal distances are twice as large, between the same nodes.
pub open spec fn graph_doubled(g: Graph, h: Graph) -> bool {
    &&& g.n == h.n
    &&& g.p_stress == h.p_stress
    &&& g.tri.len() == h.tri.len()
    &&& forall|i: int| 0 <= i < g.tri.len() ==> scaled(#[trigger] g.tri[i], h.tri[i], 1)
    &&& g.edges.len() == h.edges.len()
    &&& forall|k: int|
        0 <= k < g.edges.len() ==> edge_doubled(#[trigger] g.edges[k], h.edges[k])
}

/// Whether an edge has twice the ideal distance, between the same nodes.
pub open spec fn edge_doubled(e: Edge, f: Edge) -> bool {
    e.u == f.u && e.v == f.v && scaled(e.ideal, f.ideal, 1)
}

/// Whether the squared distance of two nodes is computed without overflow and underflow.
#[verifier::opaque]
pub open spec fn distance_clean(n: nat, x: Seq<Binary32>, u: int, v: int) -> bool {
    let dx = delta(n, x, u, v, Axis::X);
    let dy = delta(n, x, u, v, Axis::Y);
    &&& dx.finite() && dy.finite()
    &&& times_clean(dx, dx) && times_clean(dy, dy)
    &&& plus_clean(dx.times(dx), dy.times(dy))
}

/// Whether the factor of a pair in the gradient is computed without overflow and underflow.
#[verifier::opaque]
pub open spec fn pull_clean(d2: Binary32, s: Binary32) -> bool {
    let d = d2.root();
    let rid2 = lit(ONE).over(s.times(s));
    let t = lit(TWO).times(d.minus(s));
    &&& times_clean(s, s) && over_clean(lit(ONE), s.times(s)) && over_clean(lit(ONE), d)
    &&& d.minus(s).finite() && times_clean(lit(TWO), d.minus(s))
    &&& times_clean(t, rid2) && times_clean(t.times(rid2), lit(ONE).over(d))
}

/// The factor of the squared coordinate difference in an entry of the Hessian.
pub open spec fn curvature_factor(d2: Binary32, s: Binary32) -> Binary32 {
    let rid2 = lit(ONE).over(s.times(s));
    let r = lit(ONE).over(d2.root());
    lit(TWO).times(rid2).times(s).times(r.times(r).times(r))
}

/// Whether an entry of the Hessian is computed without overflow and underflow.
#[verifier::opaque]
pub open spec fn curvature_clean(d2: Binary32, s: Binary32, across: Binary32) -> bool {
    let rid2 = lit(ONE).over(s.times(s));
    let r = lit(ONE).over(d2.root());
    let r3 = r.times(r).times(r);
    let t = lit(TWO).times(rid2);
    let c = curvature_factor(d2, s);
    &&& times_clean(r, r) && times_clean(r.times(r), r)
    &&& times_clean(lit(TWO), rid2) && times_clean(t, s) && times_clean(t.times(s), r3)
    &&& times_clean(c, across) && times_clean(c.times(across), across)
    &&& times_clean(lit(FOUR), rid2) && curvature(d2, s, across).finite()
}

/// Whether an active pair is computed without overflow and underflow.
#[verifier::opaque]
pub open spec fn pair_clean(n: nat, x: Seq<Binary32>, u: int, v: int, s: Binary32) -> bool {
    let d2 = dist2(n, x, u, v);
    let dx = delta(n, x, u, v, Axis::X);
    let dy = delta(n, x, u, v, Axis::Y);
    &&& pull_clean(d2, s)
    &&& curvature_clean(d2, s, dx) && curvature_clean(d2, s, dy)
    &&& times_clean(dx, pull(d2, s)) && times_clean(dy, pull(d2, s))
}

/// Whether a sweep is computed without overflow and underflow: all squared distances, all squared
/// ideal distances, all active pairs and all sums of the gradient.
#[verifier::opaque]
pub open spec fn sweep_clean(g: Graph, x: Seq<Binary32>) -> bool {
    &&& forall|u: int, v: int|
        0 <= u < v < g.n ==> #[trigger] distance_clean(g.n, x, u, v) && times_clean(
            g.swept(u, v),
            g.swept(u, v),
        )
    &&& forall|k: int|
        0 <= k < g.edges.len() ==> {
            let e = #[trigger] g.edges[k];
            pair_clean(g.n, x, e.u as int, e.v as int, e.ideal)
        }
    &&& forall|u: int, v: int|
        0 <= u < v < g.n && #[trigger] g.pair_active(x, u, v) ==> pair_clean(
            g.n,
            x,
            u,
            v,
            g.swept(u, v),
        )
    &&& forall|w: int, axis: Axis, k: nat|
        0 <= w < g.n && k <= g.edges.len() ==> (#[trigger] g.edge_gradient(
            x,
            w,
            axis,
            k,
        )).finite()
    &&& forall|w: int, axis: Axis, r: nat|
        r <= w < g.n ==> (#[trigger] g.column_gradient(x, w, axis, r)).finite()
    &&& forall|u: int, axis: Axis, end: int|
        0 <= u < end <= g.n ==> (#[trigger] g.row_gradient(x, u, axis, end)).finite()
    &&& forall|w: int, axis: Axis|
        0 <= w < g.n ==> (#[trigger] g.gradient(x, w, axis)).finite()
}

/// A squared distance has no sign.
proof fn lemma_dist2_sign(n: nat, x: Seq<Binary32>, u: int, v: int)
    ensures
        !dist2(n, x, u, v).negative(),
{
    reveal(Binary32::plus);
    reveal(Binary32::times);
    let dx = delta(n, x, u, v, Axis::X);
    let dy = delta(n, x, u, v, Axis::Y);
    assert(!dx.times(dx).negative() && !dy.times(dy).negative());
}

proof fn lemma_delta_doubled(
    n: nat,
    x: Seq<Binary32>,
    y: Seq<Binary32>,
    u: int,
    v: int,
    axis: Axis,
)
    requires
        positions_doubled(n, x, y),
        0 <= u < n,
        0 <= v < n,
        delta(n, x, u, v, axis).finite(),
        delta(n, y, u, v, axis).finite(),
    ensures
        scaled(delta(n, x, u, v, axis), delta(n, y, u, v, axis), 1),
{
    let (i, j) = (at(n, u, axis), at(n, v, axis));
    lemma_scaled_minus(x[i], y[i], x[j], y[j], 1);
}

proof fn lemma_distance_doubled(n: nat, x: Seq<Binary32>, y: Seq<Binary32>, u: int, v: int)
    requires
        positions_doubled(n, x, y),
        0 <= u < n,
        0 <= v < n,
        distance_clean(n, x, u, v),
        distance_clean(n, y, u, v),
    ensures
        scaled(delta(n, x, u, v, Axis::X), delta(n, y, u, v, Axis::X), 1),
        scaled(delta(n, x, u, v, Axis::Y), delta(n, y, u, v, Axis::Y), 1),
        scaled(dist2(n, x, u, v), dist2(n, y, u, v), 2),
{
    reveal(distance_clean);
    lemma_delta_doubled(n, x, y, u, v, Axis::X);
    lemma_delta_doubled(n, x, y, u, v, Axis::Y);
    let (dx, ex) = (delta(n, x, u, v, Axis::X), delta(n, y, u, v, Axis::X));
    let (dy, ey) = (delta(n, x, u, v, Axis::Y), delta(n, y, u, v, Axis::Y));
    lemma_scaled_times(dx, ex, dx, ex, 1, 1);
    lemma_scaled_times(dy, ey, dy, ey, 1, 1);
    lemma_scaled_plus(dx.times(dx), ex.times(ex), dy.times(dy), ey.times(ey), 2);
}

/// The reciprocals of a pair.
proof fn lemma_reciprocals_doubled(d2: Binary32, e2: Binary32, s: Binary32, t: Binary32)
    requires
        scaled(d2, e2, 2),
        !d2.negative(),
        scaled(s, t, 1),
        pull_clean(d2, s),
        pull_clean(e2, t),
    ensures
        scaled(d2.root(), e2.root(), 1),
        scaled(lit(ONE).over(s.times(s)), lit(ONE).over(t.times(t)), -2),
        scaled(lit(ONE).over(d2.root()), lit(ONE).over(e2.root()), -1),
{
    reveal(pull_clean);
    lemma_scaled_root(d2, e2);
    lemma_scaled_same(lit(ONE));
    lemma_scaled_times(s, t, s, t, 1, 1);
    lemma_scaled_over(lit(ONE), lit(ONE), s.times(s), t.times(t), 0, 2);
    lemma_scaled_over(lit(ONE), lit(ONE), d2.root(), e2.root(), 0, 1);
}

proof fn lemma_pull_doubled(d2: Binary32, e2: Binary32, s: Binary32, t: Binary32)
    requires
        scaled(d2, e2, 2),
        !d2.negative(),
        scaled(s, t, 1),
        pull_clean(d2, s),
        pull_clean(e2, t),
    ensures
        scaled(pull(d2, s), pull(e2, t), -2),
{
    reveal(pull_clean);
    lemma_reciprocals_doubled(d2, e2, s, t);
    lemma_scaled_same(lit(TWO));
    let (d, e) = (d2.root(), e2.root());
    let (p, q) = (lit(ONE).over(s.times(s)), lit(ONE).over(t.times(t)));
    lemma_scaled_minus(d, e, s, t, 1);
    lemma_scaled_times(lit(TWO), lit(TWO), d.minus(s), e.minus(t), 0, 1);
    let (a, b) = (lit(TWO).times(d.minus(s)), lit(TWO).times(e.minus(t)));
    lemma_scaled_times(a, b, p, q, 1, -2);
    lemma_scaled_times(a.times(p), b.times(q), lit(ONE).over(d), lit(ONE).over(e), -1, -1);
}

proof fn lemma_factor_doubled(
    d2: Binary32,
    e2: Binary32,
    s: Binary32,
    t: Binary32,
    a: Binary32,
    b: Binary32,
)
    requires
        scaled(d2, e2, 2),
        !d2.negative(),
        scaled(s, t, 1),
        pull_clean(d2, s),
        pull_clean(e2, t),
        curvature_clean(d2, s, a),
        curvature_clean(e2, t, b),
    ensures
        scaled(curvature_factor(d2, s), curvature_factor(e2, t), -4),
        scaled(lit(ONE).over(s.times(s)), lit(ONE).over(t.times(t)), -2),
{
    reveal(curvature_clean);
    lemma_reciprocals_doubled(d2, e2, s, t);
    lemma_scaled_same(lit(TWO));
    let (p, q) = (lit(ONE).over(s.times(s)), lit(ONE).over(t.times(t)));
    let (r, z) = (lit(ONE).over(d2.root()), lit(ONE).over(e2.root()));
    lemma_scaled_times(r, z, r, z, -1, -1);
    lemma_scaled_times(r.times(r), z.times(z), r, z, -2, -1);
    let (r3, z3) = (r.times(r).times(r), z.times(z).times(z));
    lemma_scaled_times(lit(TWO), lit(TWO), p, q, 0, -2);
    let (f, h) = (lit(TWO).times(p), lit(TWO).times(q));
    lemma_scaled_times(f, h, s, t, -2, 1);
    lemma_scaled_times(f.times(s), h.times(t), r3, z3, -1, -3);
}

proof fn lemma_curvature_doubled(
    d2: Binary32,
    e2: Binary32,
    s: Binary32,
    t: Binary32,
    a: Binary32,
    b: Binary32,
)
    requires
        scaled(d2, e2, 2),
        !d2.negative(),
        scaled(s, t, 1),
        scaled(a, b, 1),
        pull_clean(d2, s),
        pull_clean(e2, t),
        curvature_clean(d2, s, a),
        curvature_clean(e2, t, b),
    ensures
        scaled(curvature(d2, s, a), curvature(e2, t, b), -2),
{
    reveal(curvature_clean);
    lemma_factor_doubled(d2, e2, s, t, a, b);
    lemma_scaled_same(lit(FOUR));
    let (p, q) = (lit(ONE).over(s.times(s)), lit(ONE).over(t.times(t)));
    let (c, k) = (curvature_factor(d2, s), curvature_factor(e2, t));
    lemma_scaled_times(c, k, a, b, -4, 1);
    lemma_scaled_times(c.times(a), k.times(b), a, b, -3, 1);
    lemma_scaled_times(lit(FOUR), lit(FOUR), p, q, 0, -2);
    lemma_scaled_minus(
        c.times(a).times(a),
        k.times(b).times(b),
        lit(FOUR).times(p),
        lit(FOUR).times(q),
        -2,
    );
}

/// Whether an active pair is between the same nodes, with a quarter of the entries.
pub open spec fn pair_quartered(p: ActivePair, q: ActivePair) -> bool {
    &&& p.u == q.u && p.v == q.v
    &&& scaled(p.idk_x, q.idk_x, -2)
    &&& scaled(p.idk_y, q.idk_y, -2)
}

/// Whether active pairs are the same ones, with a quarter of the entries.
pub open spec fn pairs_quartered(a: Seq<ActivePair>, b: Seq<ActivePair>) -> bool {
    &&& a.len() == b.len()
    &&& forall|i: int| 0 <= i < a.len() ==> pair_quartered(#[trigger] a[i], b[i])
}

proof fn lemma_pair_doubled(
    n: nat,
    x: Seq<Binary32>,
    y: Seq<Binary32>,
    u: int,
    v: int,
    s: Binary32,
    t: Binary32,
    axis: Axis,
)
    requires
        positions_doubled(n, x, y),
        0 <= u < n,
        0 <= v < n,
        scaled(s, t, 1),
        distance_clean(n, x, u, v),
        distance_clean(n, y, u, v),
        pair_clean(n, x, u, v, s),
        pair_clean(n, y, u, v, t),
    ensures
        pair_quartered(pair_of(n, x, u, v, s), pair_of(n, y, u, v, t)),
        scaled(force(n, x, u, v, s, axis), force(n, y, u, v, t, axis), -1),
{
    reveal(pair_clean);
    lemma_distance_doubled(n, x, y, u, v);
    lemma_dist2_sign(n, x, u, v);
    let (d2, e2) = (dist2(n, x, u, v), dist2(n, y, u, v));
    let (dx, ex) = (delta(n, x, u, v, Axis::X), delta(n, y, u, v, Axis::X));
    let (dy, ey) = (delta(n, x, u, v, Axis::Y), delta(n, y, u, v, Axis::Y));
    lemma_pull_doubled(d2, e2, s, t);
    lemma_curvature_doubled(d2, e2, s, t, dx, ex);
    lemma_curvature_doubled(d2, e2, s, t, dy, ey);
    match axis {
        Axis::X => lemma_scaled_times(dx, ex, pull(d2, s), pull(e2, t), 1, -2),
        Axis::Y => lemma_scaled_times(dy, ey, pull(d2, s), pull(e2, t), 1, -2),
    }
}

/// What is asked of a graph, of positions and of their doubles.
pub open spec fn twice(g: Graph, h: Graph, x: Seq<Binary32>, y: Seq<Binary32>) -> bool {
    &&& graph_valid(g) && graph_valid(h)
    &&& graph_doubled(g, h)
    &&& positions_doubled(g.n, x, y)
    &&& separated(g.n, x)
    &&& sweep_clean(g, x) && sweep_clean(h, y)
}

/// Four times a number without sign is above a bound that the number is above.
proof fn lemma_four_times(d: Binary32, e: Binary32, bound: Binary32)
    requires
        scaled(d, e, 2),
        !d.negative(),
        bound.finite(),
        !d.at_most(bound),
    ensures
        bound.less(d),
        bound.less(e),
        !e.at_most(bound),
{
    reveal(scaled);
    reveal(ratio);
    lemma2_to64();
    law_order_of_values(d, bound);
    law_order_of_values(bound, d);
    law_order_of_values(e, bound);
    law_order_of_values(bound, e);
    assert(size(e.value()) == size(d.value()) * 4);
}

/// Doubled positions coincide no more than the positions do.
proof fn lemma_apart(g: Graph, h: Graph, x: Seq<Binary32>, y: Seq<Binary32>, u: int, v: int)
    requires
        twice(g, h, x, y),
        0 <= u < v < g.n,
    ensures
        scaled(dist2(g.n, x, u, v), dist2(g.n, y, u, v), 2),
        lit(DISP_EPS_SQ).less(dist2(g.n, x, u, v)),
        lit(DISP_EPS_SQ).less(dist2(g.n, y, u, v)),
        !dist2(g.n, x, u, v).at_most(lit(DISP_EPS_SQ)),
        !dist2(g.n, y, u, v).at_most(lit(DISP_EPS_SQ)),
{
    reveal(sweep_clean);
    assert(distance_clean(g.n, x, u, v) && distance_clean(h.n, y, u, v));
    lemma_distance_doubled(g.n, x, y, u, v);
    lemma_dist2_sign(g.n, x, u, v);
    assert(!dist2(g.n, x, u, v).at_most(lit(DISP_EPS_SQ)));
    lemma_four_times(dist2(g.n, x, u, v), dist2(g.n, y, u, v), lit(DISP_EPS_SQ));
}

proof fn lemma_swept_doubled(g: Graph, h: Graph, u: int, v: int)
    requires
        graph_valid(g),
        graph_doubled(g, h),
        0 <= u < v < g.n,
    ensures
        scaled(g.swept(u, v), h.swept(u, v), 1),
{
    lemma_tri_index_bound(g.n, u, v);
    assert(scaled(g.tri[tri_index(g.n, u, v)], h.tri[tri_index(g.n, u, v)], 1));
}

/// The same pairs are active.
proof fn lemma_activity_doubled(
    g: Graph,
    h: Graph,
    x: Seq<Binary32>,
    y: Seq<Binary32>,
    u: int,
    v: int,
)
    requires
        twice(g, h, x, y),
        0 <= u < v < g.n,
    ensures
        g.pair_active(x, u, v) == h.pair_active(y, u, v),
{
    reveal(sweep_clean);
    lemma_apart(g, h, x, y, u, v);
    lemma_swept_doubled(g, h, u, v);
    let (s, t) = (g.swept(u, v), h.swept(u, v));
    assert(distance_clean(g.n, x, u, v) && distance_clean(h.n, y, u, v));
    lemma_scaled_times(s, t, s, t, 1, 1);
    lemma_scaled_order(
        dist2(g.n, x, u, v),
        dist2(g.n, y, u, v),
        s.times(s),
        t.times(t),
        2,
    );
    lemma_scaled_zero(1);
    lemma_scaled_order(lit(0), lit(0), s, t, 1);
}

proof fn lemma_edges_doubled(
    g: Graph,
    h: Graph,
    x: Seq<Binary32>,
    y: Seq<Binary32>,
    w: int,
    axis: Axis,
    k: nat,
)
    requires
        twice(g, h, x, y),
        0 <= w < g.n,
        k <= g.edges.len(),
    ensures
        scaled(g.edge_gradient(x, w, axis, k), h.edge_gradient(y, w, axis, k), -1),
        pairs_quartered(g.edge_pairs(x, k), h.edge_pairs(y, k)),
    decreases k,
{
    reveal(sweep_clean);
    if k == 0 {
        lemma_scaled_zero(-1);
    } else {
        let before = (k - 1) as nat;
        lemma_edges_doubled(g, h, x, y, w, axis, before);
        let (e, f) = (g.edges[k - 1], h.edges[k - 1]);
        assert(edge_doubled(e, f));
        let (u, v) = (e.u as int, e.v as int);
        assert(distance_clean(g.n, x, u, v) && distance_clean(h.n, y, u, v));
        lemma_apart(g, h, x, y, u, v);
        assert(pair_clean(h.n, y, f.u as int, f.v as int, f.ideal));
        lemma_pair_doubled(g.n, x, y, u, v, e.ideal, f.ideal, axis);
        let (a, b) = (g.edge_gradient(x, w, axis, before), h.edge_gradient(y, w, axis, before));
        let (p, q) = (
            force(g.n, x, u, v, e.ideal, axis),
            force(h.n, y, u, v, f.ideal, axis),
        );
        assert(g.edge_gradient(x, w, axis, k).finite() && h.edge_gradient(y, w, axis, k).finite());
        if u == w {
            lemma_scaled_plus(a, b, p, q, -1);
        } else if v == w {
            lemma_scaled_minus(a, b, p, q, -1);
        }
    }
}

proof fn lemma_column_doubled(
    g: Graph,
    h: Graph,
    x: Seq<Binary32>,
    y: Seq<Binary32>,
    w: int,
    axis: Axis,
    r: nat,
)
    requires
        twice(g, h, x, y),
        r <= w < g.n,
    ensures
        scaled(g.column_gradient(x, w, axis, r), h.column_gradient(y, w, axis, r), -1),
    decreases r,
{
    reveal(sweep_clean);
    if r == 0 {
        lemma_edges_doubled(g, h, x, y, w, axis, g.edges.len());
    } else {
        let before = (r - 1) as nat;
        lemma_column_doubled(g, h, x, y, w, axis, before);
        lemma_activity_doubled(g, h, x, y, r - 1, w);
        lemma_swept_doubled(g, h, r - 1, w);
        let (s, t) = (g.swept(r - 1, w), h.swept(r - 1, w));
        assert(g.column_gradient(x, w, axis, r).finite() && h.column_gradient(
            y,
            w,
            axis,
            r,
        ).finite());
        if g.pair_active(x, r - 1, w) {
            assert(h.pair_active(y, r - 1, w));
            assert(distance_clean(g.n, x, r - 1, w) && distance_clean(h.n, y, r - 1, w));
            lemma_pair_doubled(g.n, x, y, r - 1, w, s, t, axis);
            lemma_scaled_minus(
                g.column_gradient(x, w, axis, before),
                h.column_gradient(y, w, axis, before),
                force(g.n, x, r - 1, w, s, axis),
                force(h.n, y, r - 1, w, t, axis),
                -1,
            );
        }
    }
}

proof fn lemma_row_doubled(
    g: Graph,
    h: Graph,
    x: Seq<Binary32>,
    y: Seq<Binary32>,
    u: int,
    axis: Axis,
    end: int,
)
    requires
        twice(g, h, x, y),
        0 <= u < end <= g.n,
    ensures
        scaled(g.row_gradient(x, u, axis, end), h.row_gradient(y, u, axis, end), -1),
        pairs_quartered(g.row_pairs(x, u, end), h.row_pairs(y, u, end)),
    decreases end - u,
{
    reveal(sweep_clean);
    if end <= u + 1 {
        lemma_scaled_zero(-1);
    } else {
        lemma_row_doubled(g, h, x, y, u, axis, end - 1);
        let v = end - 1;
        lemma_activity_doubled(g, h, x, y, u, v);
        lemma_swept_doubled(g, h, u, v);
        let (s, t) = (g.swept(u, v), h.swept(u, v));
        assert(g.row_gradient(x, u, axis, end).finite() && h.row_gradient(
            y,
            u,
            axis,
            end,
        ).finite());
        if g.pair_active(x, u, v) {
            assert(h.pair_active(y, u, v));
            assert(distance_clean(g.n, x, u, v) && distance_clean(h.n, y, u, v));
            lemma_pair_doubled(g.n, x, y, u, v, s, t, axis);
            lemma_scaled_plus(
                g.row_gradient(x, u, axis, v),
                h.row_gradient(y, u, axis, v),
                force(g.n, x, u, v, s, axis),
                force(h.n, y, u, v, t, axis),
                -1,
            );
        }
    }
}

proof fn lemma_rows_doubled(g: Graph, h: Graph, x: Seq<Binary32>, y: Seq<Binary32>, r: nat)
    requires
        twice(g, h, x, y),
        r <= g.n,
    ensures
        pairs_quartered(g.rows_pairs(x, r), h.rows_pairs(y, r)),
    decreases r,
{
    if r > 0 {
        lemma_rows_doubled(g, h, x, y, (r - 1) as nat);
        lemma_row_doubled(g, h, x, y, r - 1, Axis::X, g.n as int);
    }
}

proof fn lemma_gradient_doubled(
    g: Graph,
    h: Graph,
    x: Seq<Binary32>,
    y: Seq<Binary32>,
    w: int,
    axis: Axis,
)
    requires
        twice(g, h, x, y),
        0 <= w < g.n,
    ensures
        scaled(g.gradient(x, w, axis), h.gradient(y, w, axis), -1),
{
    reveal(sweep_clean);
    lemma_column_doubled(g, h, x, y, w, axis, w as nat);
    lemma_row_doubled(g, h, x, y, w, axis, g.n as int);
    assert(g.gradient(x, w, axis).finite() && h.gradient(y, w, axis).finite());
    lemma_scaled_plus(
        g.column_gradient(x, w, axis, w as nat),
        h.column_gradient(y, w, axis, w as nat),
        g.row_gradient(x, w, axis, g.n as int),
        h.row_gradient(y, w, axis, g.n as int),
        -1,
    );
}

/// With twice the distances and twice the positions, the same pairs are active, their entries of the
/// Hessian are a quarter, and the gradient is half, where no nodes coincide and nothing overflows or
/// underflows.
pub proof fn law_doubled_sweep(g: Graph, h: Graph, x: Seq<Binary32>, y: Seq<Binary32>)
    requires
        twice(g, h, x, y),
    ensures
        separated(g.n, y),
        pairs_quartered(g.active_pairs(x), h.active_pairs(y)),
        forall|i: int|
            0 <= i < 2 * g.n ==> scaled(#[trigger] g.gradients(x)[i], h.gradients(y)[i], -1),
{
    assert forall|u: int, v: int| 0 <= u < v < g.n implies !(#[trigger] dist2(
        g.n,
        y,
        u,
        v,
    )).at_most(lit(DISP_EPS_SQ)) by {
        lemma_apart(g, h, x, y, u, v);
    }
    lemma_rows_doubled(g, h, x, y, g.n);
    if g.n > 0 {
        lemma_edges_doubled(g, h, x, y, 0, Axis::X, g.edges.len());
    } else if g.edges.len() > 0 {
        assert(g.edges[0].u < g.edges[0].v < g.n);
    }
    assert forall|i: int| 0 <= i < 2 * g.n implies scaled(
        #[trigger] g.gradients(x)[i],
        h.gradients(y)[i],
        -1,
    ) by {
        if i < g.n {
            lemma_gradient_doubled(g, h, x, y, i, Axis::X);
        } else {
            lemma_gradient_doubled(g, h, x, y, i - g.n, Axis::Y);
        }
    }
}

/// Whether the squared length of a gradient is computed without overflow and underflow.
#[verifier::opaque]
pub open spec fn length_clean(g: Seq<Binary32>, n: nat) -> bool {
    let c = (2 * n) / 4;
    let (l0, l1) = (lane_square_sum(g, 0, c), lane_square_sum(g, 1, c));
    &&& forall|i: int| 0 <= i < 2 * n ==> times_clean(#[trigger] g[i], g[i])
    &&& forall|lane: int, k: nat|
        0 <= lane < 4 && k <= c ==> (#[trigger] lane_square_sum(g, lane, k)).finite()
    &&& l0.plus(l1).finite() && l0.plus(l1).plus(lane_square_sum(g, 2, c)).finite()
    &&& forall|end: nat| end <= 2 * n ==> (#[trigger] square_sum(g, c, end)).finite()
}

/// Whether the term of a pair in the quadratic form is computed without overflow and underflow.
#[verifier::opaque]
pub open spec fn term_clean(p: ActivePair, g: Seq<Binary32>, n: nat) -> bool {
    let dgx = g[p.u as int].minus(g[p.v as int]);
    let dgy = g[n + p.u].minus(g[n + p.v]);
    &&& dgx.finite() && dgy.finite()
    &&& times_clean(p.idk_x, dgx) && times_clean(p.idk_x.times(dgx), dgx)
    &&& times_clean(p.idk_y, dgy) && times_clean(p.idk_y.times(dgy), dgy)
    &&& pair_term(p, g, n).finite()
}

/// Whether the step size is computed without overflow and underflow.
pub open spec fn step_clean(graph: Graph, x: Seq<Binary32>) -> bool {
    let g = graph.gradients(x);
    let pairs = graph.active_pairs(x);
    let form = pair_sum(pairs, g, graph.n, pairs.len()).negated();
    &&& length_clean(g, graph.n)
    &&& forall|k: int|
        0 <= k < pairs.len() ==> term_clean(#[trigger] pairs[k], g, graph.n)
    &&& forall|k: nat|
        k <= pairs.len() ==> (#[trigger] pair_sum(pairs, g, graph.n, k)).finite()
    &&& form.magnitude() == 0 || over_clean(squared_length(g, graph.n), form)
}

/// Whether the entries of a gradient are half as large.
pub open spec fn gradient_halved(n: nat, g: Seq<Binary32>, h: Seq<Binary32>) -> bool {
    forall|i: int| 0 <= i < 2 * n ==> scaled(#[trigger] g[i], h[i], -1)
}

proof fn lemma_lane_doubled(n: nat, g: Seq<Binary32>, h: Seq<Binary32>, lane: int, c: nat)
    requires
        gradient_halved(n, g, h),
        length_clean(g, n),
        length_clean(h, n),
        0 <= lane < 4,
        c <= (2 * n) / 4,
    ensures
        scaled(lane_square_sum(g, lane, c), lane_square_sum(h, lane, c), -2),
    decreases c,
{
    reveal(length_clean);
    if c == 0 {
        lemma_scaled_zero(-2);
    } else {
        let before = (c - 1) as nat;
        lemma_lane_doubled(n, g, h, lane, before);
        let i = 4 * (c - 1) + lane;
        let (a, b) = (g[i], h[i]);
        assert(scaled(a, b, -1) && times_clean(a, a) && times_clean(b, b));
        lemma_scaled_times(a, b, a, b, -1, -1);
        assert(lane_square_sum(g, lane, c).finite() && lane_square_sum(h, lane, c).finite());
        lemma_scaled_plus(
            lane_square_sum(g, lane, before),
            lane_square_sum(h, lane, before),
            a.times(a),
            b.times(b),
            -2,
        );
    }
}

proof fn lemma_length_doubled(n: nat, g: Seq<Binary32>, h: Seq<Binary32>, end: nat)
    requires
        gradient_halved(n, g, h),
        length_clean(g, n),
        length_clean(h, n),
        end <= 2 * n,
    ensures
        scaled(square_sum(g, (2 * n) / 4, end), square_sum(h, (2 * n) / 4, end), -2),
    decreases end,
{
    reveal(length_clean);
    let c = (2 * n) / 4;
    assert(square_sum(g, c, end).finite() && square_sum(h, c, end).finite());
    if end <= 4 * c {
        lemma_lane_doubled(n, g, h, 0, c);
        lemma_lane_doubled(n, g, h, 1, c);
        lemma_lane_doubled(n, g, h, 2, c);
        lemma_lane_doubled(n, g, h, 3, c);
        let (a0, a1, a2, a3) = (
            lane_square_sum(g, 0, c),
            lane_square_sum(g, 1, c),
            lane_square_sum(g, 2, c),
            lane_square_sum(g, 3, c),
        );
        let (b0, b1, b2, b3) = (
            lane_square_sum(h, 0, c),
            lane_square_sum(h, 1, c),
            lane_square_sum(h, 2, c),
            lane_square_sum(h, 3, c),
        );
        lemma_scaled_plus(a0, b0, a1, b1, -2);
        lemma_scaled_plus(a0.plus(a1), b0.plus(b1), a2, b2, -2);
        lemma_scaled_plus(a0.plus(a1).plus(a2), b0.plus(b1).plus(b2), a3, b3, -2);
    } else {
        let before = (end - 1) as nat;
        lemma_length_doubled(n, g, h, before);
        let (a, b) = (g[end - 1], h[end - 1]);
        assert(scaled(a, b, -1) && times_clean(a, a) && times_clean(b, b));
        lemma_scaled_times(a, b, a, b, -1, -1);
        lemma_scaled_plus(
            square_sum(g, c, before),
            square_sum(h, c, before),
            a.times(a),
            b.times(b),
            -2,
        );
    }
}

proof fn lemma_term_doubled(
    n: nat,
    p: ActivePair,
    q: ActivePair,
    g: Seq<Binary32>,
    h: Seq<Binary32>,
)
    requires
        gradient_halved(n, g, h),
        pair_quartered(p, q),
        p.u < n,
        p.v < n,
        term_clean(p, g, n),
        term_clean(q, h, n),
    ensures
        scaled(pair_term(p, g, n), pair_term(q, h, n), -4),
{
    reveal(term_clean);
    let (u, v) = (p.u as int, p.v as int);
    assert(scaled(g[u], h[u], -1) && scaled(g[v], h[v], -1));
    assert(scaled(g[n + u], h[n + u], -1) && scaled(g[n + v], h[n + v], -1));
    lemma_scaled_minus(g[u], h[u], g[v], h[v], -1);
    lemma_scaled_minus(g[n + u], h[n + u], g[n + v], h[n + v], -1);
    let (ax, bx) = (g[u].minus(g[v]), h[u].minus(h[v]));
    let (ay, ey) = (g[n + u].minus(g[n + v]), h[n + u].minus(h[n + v]));
    lemma_scaled_times(p.idk_x, q.idk_x, ax, bx, -2, -1);
    lemma_scaled_times(p.idk_x.times(ax), q.idk_x.times(bx), ax, bx, -3, -1);
    lemma_scaled_times(p.idk_y, q.idk_y, ay, ey, -2, -1);
    lemma_scaled_times(p.idk_y.times(ay), q.idk_y.times(ey), ay, ey, -3, -1);
    lemma_scaled_plus(
        p.idk_x.times(ax).times(ax),
        q.idk_x.times(bx).times(bx),
        p.idk_y.times(ay).times(ay),
        q.idk_y.times(ey).times(ey),
        -4,
    );
}

proof fn lemma_form_doubled(
    n: nat,
    p: Seq<ActivePair>,
    q: Seq<ActivePair>,
    g: Seq<Binary32>,
    h: Seq<Binary32>,
    k: nat,
)
    requires
        gradient_halved(n, g, h),
        pairs_quartered(p, q),
        pairs_in_range(p, n),
        k <= p.len(),
        forall|i: int| 0 <= i < p.len() ==> term_clean(#[trigger] p[i], g, n),
        forall|i: int| 0 <= i < q.len() ==> term_clean(#[trigger] q[i], h, n),
        forall|j: nat| j <= p.len() ==> (#[trigger] pair_sum(p, g, n, j)).finite(),
        forall|j: nat| j <= q.len() ==> (#[trigger] pair_sum(q, h, n, j)).finite(),
    ensures
        scaled(pair_sum(p, g, n, k), pair_sum(q, h, n, k), -4),
    decreases k,
{
    if k == 0 {
        lemma_scaled_zero(-4);
    } else {
        let before = (k - 1) as nat;
        lemma_form_doubled(n, p, q, g, h, before);
        assert(pair_quartered(p[k - 1], q[k - 1]));
        assert(p[k - 1].u < p[k - 1].v < n);
        lemma_term_doubled(n, p[k - 1], q[k - 1], g, h);
        assert(pair_sum(p, g, n, k).finite() && pair_sum(q, h, n, k).finite());
        lemma_scaled_plus(
            pair_sum(p, g, n, before),
            pair_sum(q, h, n, before),
            pair_term(p[k - 1], g, n),
            pair_term(q[k - 1], h, n),
            -4,
        );
    }
}

/// With twice the distances and twice the positions, the step size is four times as large, where no
/// nodes coincide and nothing overflows or underflows.
pub proof fn law_doubled_step(g: Graph, h: Graph, x: Seq<Binary32>, y: Seq<Binary32>)
    requires
        twice(g, h, x, y),
        step_clean(g, x),
        step_clean(h, y),
    ensures
        scaled(step_at(g, x), step_at(h, y), 2),
{
    let n = g.n;
    let (a, b) = (g.gradients(x), h.gradients(y));
    let (p, q) = (g.active_pairs(x), h.active_pairs(y));
    law_doubled_sweep(g, h, x, y);
    lemma_active_pairs_in_range(g, x);
    assert(gradient_halved(n, a, b));
    lemma_length_doubled(n, a, b, 2 * n);
    lemma_form_doubled(n, p, q, a, b, p.len());
    lemma_quotient_doubled(n, p, q, a, b);
}

/// The step size from its two parts.
proof fn lemma_quotient_doubled(
    n: nat,
    p: Seq<ActivePair>,
    q: Seq<ActivePair>,
    a: Seq<Binary32>,
    b: Seq<Binary32>,
)
    requires
        scaled(squared_length(a, n), squared_length(b, n), -2),
        scaled(pair_sum(p, a, n, p.len()), pair_sum(q, b, n, q.len()), -4),
        ({
            let f = pair_sum(p, a, n, p.len()).negated();
            f.magnitude() == 0 || over_clean(squared_length(a, n), f)
        }),
        ({
            let f = pair_sum(q, b, n, q.len()).negated();
            f.magnitude() == 0 || over_clean(squared_length(b, n), f)
        }),
    ensures
        scaled(
            step_size(a, n, p, Seq::empty(), lit(0)),
            step_size(b, n, q, Seq::empty(), lit(0)),
            2,
        ),
{
    let (s, t) = (pair_sum(p, a, n, p.len()), pair_sum(q, b, n, q.len()));
    lemma_scaled_negated(s, t, -4);
    let (f, k) = (s.negated(), t.negated());
    assert(f.finite() && k.finite()) by {
        reveal(scaled);
    }
    assert(hessian_form(a, n, p, Seq::empty(), lit(0)) == f);
    assert(hessian_form(b, n, q, Seq::empty(), lit(0)) == k);
    lemma_same_zero(f, k, -4);
    if f.magnitude() == 0 {
        lemma_scaled_zero(2);
    } else {
        assert(!f.same(lit(0)) && !k.same(lit(0)));
        lemma_scaled_over(squared_length(a, n), squared_length(b, n), f, k, -2, -4);
    }
}

/// Zero is scaled to zero, and nothing else is.
proof fn lemma_same_zero(a: Binary32, b: Binary32, k: int)
    requires
        scaled(a, b, k),
    ensures
        (a.magnitude() == 0) == (b.magnitude() == 0),
{
    reveal(scaled);
    reveal(ratio);
    lemma_zero_size(a);
    lemma_zero_size(b);
    lemma_pow2_pos(k as nat);
    lemma_pow2_pos((-k) as nat);
    let (x, y) = (size(a.value()), size(b.value()));
    let (p, q) = (pow2(k as nat), pow2((-k) as nat));
    if k >= 0 {
        assert((x == 0) == (y == 0)) by (nonlinear_arith)
            requires
                y == x * p,
                p > 0,
        ;
    } else {
        assert((x == 0) == (y == 0)) by (nonlinear_arith)
            requires
                x == y * q,
                q > 0,
        ;
    }
}

/// Whether the distances of a matrix are twice as large, and the same pairs have none.
pub open spec fn matrix_doubled(d: Seq<Binary32>, e: Seq<Binary32>) -> bool {
    &&& d.len() == e.len()
    &&& forall|i: int|
        0 <= i < d.len() ==> if is_distance(#[trigger] d[i]) {
            is_distance(e[i]) && scaled(d[i], e[i], 1)
        } else {
            !is_distance(e[i])
        }
}

proof fn lemma_triangle_doubled(d: Seq<Binary32>, e: Seq<Binary32>, n: nat, r: nat)
    requires
        matrix_doubled(d, e),
        n < 0xffff,
        n * (n - 1) <= d.len(),
        r <= n,
    ensures
        triangle(d, n, r).len() == triangle(e, n, r).len(),
        forall|i: int|
            0 <= i < triangle(d, n, r).len() ==> scaled(
                #[trigger] triangle(d, n, r)[i],
                triangle(e, n, r)[i],
                1,
            ),
    decreases r,
{
    if r > 0 {
        lemma_triangle_doubled(d, e, n, (r - 1) as nat);
        let (a, b) = (triangle_row(d, n, r - 1, n as int), triangle_row(e, n, r - 1, n as int));
        assert forall|j: int| 0 <= j < a.len() implies scaled(#[trigger] a[j], b[j], 1) by {
            let v = r + j;
            lemma_matrix_index(n, r - 1, v);
            let i = (r - 1) * n + v;
            assert(a[j] == ideal_of(d[i]) && b[j] == ideal_of(e[i]));
            assert(0 <= i < d.len());
            lemma_scaled_zero(1);
            if is_distance(d[i]) {
                assert(scaled(d[i], e[i], 1));
            } else {
                assert(!is_distance(e[i]));
            }
        }
    }
}

/// A matrix of doubled distances makes the doubled graph.
pub proof fn law_doubled_matrix(d: Seq<Binary32>, e: Seq<Binary32>, n: nat)
    requires
        matrix_doubled(d, e),
        n < 0xffff,
        n * (n - 1) <= d.len(),
    ensures
        graph_doubled(graph_of(d, n), graph_of(e, n)),
{
    lemma_triangle_doubled(d, e, n, n);
}

/// Whether two triangles of distances are a factor of two apart.
spec fn triangles_doubled(a: Seq<Binary32>, b: Seq<Binary32>) -> bool {
    &&& a.len() == b.len()
    &&& forall|i: int| 0 <= i < a.len() ==> scaled(#[trigger] a[i], b[i], 1)
}

spec fn edges_doubled(a: Seq<Edge>, b: Seq<Edge>) -> bool {
    &&& a.len() == b.len()
    &&& forall|i: int| 0 <= i < a.len() ==> edge_doubled(#[trigger] a[i], b[i])
}

proof fn lemma_with_doubled(
    a: Seq<Binary32>,
    b: Seq<Binary32>,
    n: nat,
    p: Seq<Edge>,
    q: Seq<Edge>,
    k: nat,
)
    requires
        triangles_doubled(a, b),
        edges_doubled(p, q),
        a.len() == pair_count(n),
        forall|i: int| 0 <= i < p.len() ==> (#[trigger] p[i]).u < p[i].v && p[i].v < n,
        k <= p.len(),
    ensures
        triangles_doubled(with_edges(a, n, p, k), with_edges(b, n, q, k)),
        triangles_doubled(without_edges(a, n, p, k), without_edges(b, n, q, k)),
        with_edges(a, n, p, k).len() == a.len(),
        without_edges(a, n, p, k).len() == a.len(),
    decreases k,
{
    if k > 0 {
        lemma_with_doubled(a, b, n, p, q, (k - 1) as nat);
        let e = p[k - 1];
        assert(edge_doubled(e, q[k - 1]));
        lemma_tri_index_bound(n, e.u as int, e.v as int);
        assert(edge_index(n, q[k - 1]) == edge_index(n, e));
        lemma_scaled_zero(1);
    }
}

proof fn lemma_row_edges_doubled(
    a: Seq<Binary32>,
    b: Seq<Binary32>,
    weights: Seq<Binary32>,
    n: nat,
    u: int,
    end: int,
)
    requires
        triangles_doubled(a, b),
        a.len() == pair_count(n),
        n < 0xffff,
        0 <= u,
        end <= n,
    ensures
        edges_doubled(row_edges(a, weights, n, u, end), row_edges(b, weights, n, u, end)),
        forall|i: int|
            0 <= i < row_edges(a, weights, n, u, end).len() ==> {
                let e = #[trigger] row_edges(a, weights, n, u, end)[i];
                e.u < e.v && e.v < n
            },
    decreases end - u,
{
    if end > u + 1 {
        lemma_row_edges_doubled(a, b, weights, n, u, end - 1);
        lemma_tri_index_bound(n, u, end - 1);
        let i = tri_index(n, u, end - 1);
        assert(scaled(a[i], b[i], 1));
        lemma_scaled_zero(1);
        lemma_scaled_order(lit(0), lit(0), a[i], b[i], 1);
        assert(adjacent(a, weights, n, u, end - 1) == adjacent(b, weights, n, u, end - 1));
    }
}

proof fn lemma_edge_list_doubled(
    a: Seq<Binary32>,
    b: Seq<Binary32>,
    weights: Seq<Binary32>,
    n: nat,
    r: nat,
)
    requires
        triangles_doubled(a, b),
        a.len() == pair_count(n),
        n < 0xffff,
        r <= n,
    ensures
        edges_doubled(edge_list(a, weights, n, r), edge_list(b, weights, n, r)),
        forall|i: int|
            0 <= i < edge_list(a, weights, n, r).len() ==> {
                let e = #[trigger] edge_list(a, weights, n, r)[i];
                e.u < e.v && e.v < n
            },
    decreases r,
{
    if r > 0 {
        lemma_edge_list_doubled(a, b, weights, n, (r - 1) as nat);
        lemma_row_edges_doubled(a, b, weights, n, r - 1, n as int);
    }
}

/// The same weights keep a doubled graph doubled.
pub proof fn law_doubled_weights(g: Graph, h: Graph, weights: Seq<Binary32>)
    requires
        graph_valid(g),
        graph_doubled(g, h),
    ensures
        graph_doubled(weighted(g, weights), weighted(h, weights)),
{
    lemma_with_doubled(g.tri, h.tri, g.n, g.edges, h.edges, g.edges.len());
    let (a, b) = (g.ideals(), h.ideals());
    if weights.len() > 0 {
        lemma_edge_list_doubled(a, b, weights, g.n, g.n);
        let (p, q) = (edge_list(a, weights, g.n, g.n), edge_list(b, weights, g.n, g.n));
        lemma_with_doubled(a, b, g.n, p, q, p.len());
    }
}

/// Two layouts of which one has twice the distances, twice the positions and the same weights: they
/// have the same active pairs, with a quarter of the entries, half the gradient and four times the
/// step size, where no nodes coincide and nothing overflows or underflows.
pub proof fn law_doubled_layout(
    d: Seq<Binary32>,
    e: Seq<Binary32>,
    n: nat,
    weights: Seq<Binary32>,
    x: Seq<Binary32>,
    y: Seq<Binary32>,
)
    requires
        n < 0xffff,
        n * (n - 1) <= d.len(),
        matrix_doubled(d, e),
        positions_doubled(n, x, y),
        separated(n, x),
        ({
            let g = weighted(graph_of(d, n), weights);
            let h = weighted(graph_of(e, n), weights);
            sweep_clean(g, x) && sweep_clean(h, y) && step_clean(g, x) && step_clean(h, y)
        }),
    ensures
        ({
            let g = weighted(graph_of(d, n), weights);
            let h = weighted(graph_of(e, n), weights);
            &&& separated(n, y)
            &&& pairs_quartered(g.active_pairs(x), h.active_pairs(y))
            &&& gradient_halved(n, g.gradients(x), h.gradients(y))
            &&& scaled(step_at(g, x), step_at(h, y), 2)
        }),
{
    let g = weighted(graph_of(d, n), weights);
    let h = weighted(graph_of(e, n), weights);
    law_empty_weights_restore(d, n, weights);
    law_empty_weights_restore(e, n, weights);
    law_weights_keep_ideals(graph_of(d, n), weights);
    law_weights_keep_ideals(graph_of(e, n), weights);
    law_doubled_matrix(d, e, n);
    law_doubled_weights(graph_of(d, n), graph_of(e, n), weights);
    law_doubled_sweep(g, h, x, y);
    law_doubled_step(g, h, x, y);
}

} // verus!
