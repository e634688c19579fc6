//! What forces that balance keep: the sum of the gradient, and the centre of the positions.
//!
//! Rounding disturbs these sums, so they are stated where no operation rounds.
use crate::binary32::{lit, Binary32};
use crate::laws::values;
use crate::model::{at, force, separated, Axis, Graph};
use crate::motion::{blended, midway, step_at, stepped, Drift, World};
use crate::rounding::magnitude_value;
use crate::settling::law_separated_stays;
use crate::topology::graph_valid;
use vstd::arithmetic::power2::{lemma_pow2_pos, pow2};
use vstd::prelude::*;

verus! {

/// The sum of integers.
pub open spec fn total(s: Seq<int>) -> int
    decreases s.len(),
{
    if s.len() == 0 {
        0
    } else {
        total(s.drop_last()) + s.last()
    }
}

proof fn lemma_total_update(s: Seq<int>, i: int, v: int)
    requires
        0 <= i < s.len(),
    ensures
        total(s.update(i, v)) == total(s) - s[i] + v,
    decreases s.len(),
{
    let t = s.update(i, v);
    if i == s.len() - 1 {
        assert(t.drop_last() =~= s.drop_last());
    } else {
        lemma_total_update(s.drop_last(), i, v);
        assert(t.drop_last() =~= s.drop_last().update(i, v));
    }
}

proof fn lemma_total_zero(s: Seq<int>)
    requires
        forall|i: int| 0 <= i < s.len() ==> #[trigger] s[i] == 0,
    ensures
        total(s) == 0,
    decreases s.len(),
{
    if s.len() > 0 {
        lemma_total_zero(s.drop_last());
    }
}

/// Whether a sum is computed without rounding.
pub open spec fn exact_sum(a: Binary32, b: Binary32) -> bool {
    a.plus(b).value() == a.value() + b.value()
}

/// Whether a difference is computed without rounding.
pub open spec fn exact_difference(a: Binary32, b: Binary32) -> bool {
    a.minus(b).value() == a.value() - b.value()
}

/// Whether the contributions to the gradient along an axis are added up without rounding: those of
/// the edges, those of the rows above a node, those of its own row, and the two sums at the end.
pub open spec fn gradient_exact(g: Graph, x: Seq<Binary32>, axis: Axis) -> bool {
    &&& forall|k: int|
        0 <= k < g.edges.len() && g.edge_active(x, k) ==> {
            let e = #[trigger] g.edges[k];
            let f = force(g.n, x, e.u as int, e.v as int, e.ideal, axis);
            &&& exact_sum(g.edge_gradient(x, e.u as int, axis, k as nat), f)
            &&& exact_difference(g.edge_gradient(x, e.v as int, axis, k as nat), f)
        }
    &&& forall|u: int, v: int|
        0 <= u < v < g.n && #[trigger] g.pair_active(x, u, v) ==> {
            let f = force(g.n, x, u, v, g.swept(u, v), axis);
            &&& exact_sum(g.row_gradient(x, u, axis, v), f)
            &&& exact_difference(g.column_gradient(x, v, axis, u as nat), f)
        }
    &&& forall|w: int|
        0 <= w < g.n ==> exact_sum(
            #[trigger] g.column_gradient(x, w, axis, w as nat),
            g.row_gradient(x, w, axis, g.n as int),
        )
}

/// The exact gradient of all nodes from the first `k` edges.
spec fn edge_cells(g: Graph, x: Seq<Binary32>, axis: Axis, k: nat) -> Seq<int> {
    Seq::new(g.n, |w: int| g.edge_gradient(x, w, axis, k).value())
}

proof fn lemma_zero_value()
    ensures
        lit(0).value() == 0,
{
    assert(magnitude_value(0) == 0);
}

proof fn lemma_edges_balanced(g: Graph, x: Seq<Binary32>, axis: Axis, k: nat)
    requires
        graph_valid(g),
        gradient_exact(g, x, axis),
        k <= g.edges.len(),
    ensures
        total(edge_cells(g, x, axis, k)) == 0,
    decreases k,
{
    let now = edge_cells(g, x, axis, k);
    if k == 0 {
        lemma_zero_value();
        lemma_total_zero(now);
    } else {
        lemma_edges_balanced(g, x, axis, (k - 1) as nat);
        let before = edge_cells(g, x, axis, (k - 1) as nat);
        if g.edge_active(x, k - 1) {
            let e = g.edges[k - 1];
            let (u, v) = (e.u as int, e.v as int);
            let f = force(g.n, x, u, v, e.ideal, axis).value();
            let middle = before.update(u, before[u] + f);
            lemma_total_update(before, u, before[u] + f);
            lemma_total_update(middle, v, before[v] - f);
            assert(now =~= middle.update(v, before[v] - f));
        } else {
            assert(now =~= before);
        }
    }
}

/// The exact gradient of all nodes when the rows before `u` are done and row `u` up to the node
/// `end`, with the sum over row `u` not yet added.
spec fn cells(g: Graph, x: Seq<Binary32>, axis: Axis, u: int, end: int) -> Seq<int> {
    Seq::new(
        g.n,
        |w: int|
            if w < u {
                g.gradient(x, w, axis).value()
            } else if w == u || w >= end {
                g.column_gradient(x, w, axis, u as nat).value()
            } else {
                g.column_gradient(x, w, axis, (u + 1) as nat).value()
            },
    )
}

proof fn lemma_rows_balanced(g: Graph, x: Seq<Binary32>, axis: Axis, u: int, end: int)
    requires
        graph_valid(g),
        gradient_exact(g, x, axis),
        0 <= u < end <= g.n,
    ensures
        total(cells(g, x, axis, u, end)) + g.row_gradient(x, u, axis, end).value() == 0,
    decreases u, end,
{
    let now = cells(g, x, axis, u, end);
    if end == u + 1 {
        lemma_zero_value();
        if u == 0 {
            lemma_edges_balanced(g, x, axis, g.edges.len());
            assert(now =~= edge_cells(g, x, axis, g.edges.len()));
        } else {
            lemma_rows_balanced(g, x, axis, u - 1, g.n as int);
            let before = cells(g, x, axis, u - 1, g.n as int);
            let done = g.gradient(x, u - 1, axis).value();
            assert(exact_sum(
                g.column_gradient(x, u - 1, axis, (u - 1) as nat),
                g.row_gradient(x, u - 1, axis, g.n as int),
            ));
            lemma_total_update(before, u - 1, done);
            assert(now =~= before.update(u - 1, done));
        }
    } else {
        lemma_rows_balanced(g, x, axis, u, end - 1);
        let before = cells(g, x, axis, u, end - 1);
        if g.pair_active(x, u, end - 1) {
            let f = force(g.n, x, u, end - 1, g.swept(u, end - 1), axis).value();
            lemma_total_update(before, end - 1, before[end - 1] - f);
            assert(now =~= before.update(end - 1, before[end - 1] - f));
        } else {
            assert(now =~= before);
        }
    }
}

/// The gradient is balanced: where its contributions are added up without rounding, its exact values
/// sum to zero along each axis. Each active pair adds as much at one of its nodes as it takes away
/// at the other.
pub proof fn law_gradient_balanced(g: Graph, x: Seq<Binary32>, axis: Axis)
    requires
        graph_valid(g),
        gradient_exact(g, x, axis),
    ensures
        total(values(g.gradients(x), g.n, axis)) == 0,
{
    let all = values(g.gradients(x), g.n, axis);
    if g.n > 0 {
        let last = g.n - 1;
        lemma_rows_balanced(g, x, axis, last, g.n as int);
        let before = cells(g, x, axis, last, g.n as int);
        let done = g.gradient(x, last, axis).value();
        assert(exact_sum(
            g.column_gradient(x, last, axis, last as nat),
            g.row_gradient(x, last, axis, g.n as int),
        ));
        lemma_total_update(before, last, done);
        assert(all =~= before.update(last, done));
    }
}

/// The sum of the exact positions along an axis: the centre of the nodes, times their number.
pub open spec fn centre(x: Seq<Binary32>, n: nat, axis: Axis) -> int {
    total(values(x, n, axis))
}

/// Whether a step against the gradient at the positions `from` is taken without rounding.
pub open spec fn step_exact(g: Graph, from: Seq<Binary32>, place: Seq<Binary32>) -> bool {
    &&& gradient_exact(g, place, Axis::X)
    &&& gradient_exact(g, place, Axis::Y)
    &&& forall|i: int|
        0 <= i < 2 * g.n ==> (#[trigger] stepped(g, from, place)[i]).value() * pow2(149)
            == from[i].value() * pow2(149) - step_at(g, place).value() * g.gradients(
            place,
        )[i].value()
}

/// Whether the positions half way are computed without rounding.
pub open spec fn midway_exact(x: Seq<Binary32>, a: Seq<Binary32>, len: nat) -> bool {
    forall|i: int|
        0 <= i < len ==> 2 * (#[trigger] midway(x, a, len)[i]).value() == x[i].value()
            + a[i].value()
}

/// Whether the mean of four stages is computed without rounding.
pub open spec fn blend_exact(
    a: Seq<Binary32>,
    b: Seq<Binary32>,
    c: Seq<Binary32>,
    d: Seq<Binary32>,
    len: nat,
) -> bool {
    forall|i: int|
        0 <= i < len ==> 6 * (#[trigger] blended(a, b, c, d, len)[i]).value() == a[i].value() + 2
            * b[i].value() + 2 * c[i].value() + d[i].value()
}

proof fn lemma_total_step(a: Seq<int>, b: Seq<int>, c: Seq<int>, s: int, scale: int)
    requires
        a.len() == b.len() == c.len(),
        forall|i: int| 0 <= i < a.len() ==> #[trigger] c[i] * scale == a[i] * scale - s * b[i],
    ensures
        total(c) * scale == total(a) * scale - s * total(b),
    decreases a.len(),
{
    if a.len() == 0 {
        assert(0 * scale == 0 && s * 0 == 0);
    } else {
        let (x, y, z) = (a.drop_last(), b.drop_last(), c.drop_last());
        assert forall|i: int| 0 <= i < x.len() implies #[trigger] z[i] * scale == x[i] * scale - s
            * y[i] by {
            assert(z[i] == c[i]);
        }
        lemma_total_step(x, y, z, s, scale);
        assert(c.last() * scale == a.last() * scale - s * b.last()) by {
            assert(c.last() == c[c.len() - 1]);
        }
        let (ta, tb, tc) = (total(x), total(y), total(z));
        let (la, lb, lc) = (a.last(), b.last(), c.last());
        assert((tc + lc) * scale == (ta + la) * scale - s * (tb + lb)) by (nonlinear_arith)
            requires
                tc * scale == ta * scale - s * tb,
                lc * scale == la * scale - s * lb,
        ;
    }
}

proof fn lemma_total_mean(
    m: Seq<int>,
    k: int,
    a: Seq<int>,
    b: Seq<int>,
    c: Seq<int>,
    d: Seq<int>,
    p: int,
    q: int,
)
    requires
        m.len() == a.len() == b.len() == c.len() == d.len(),
        forall|i: int|
            0 <= i < m.len() ==> k * #[trigger] m[i] == p * a[i] + q * b[i] + q * c[i] + p * d[i],
    ensures
        k * total(m) == p * total(a) + q * total(b) + q * total(c) + p * total(d),
    decreases m.len(),
{
    if m.len() == 0 {
        assert(k * 0 == 0 && p * 0 == 0 && q * 0 == 0);
    } else {
        let (m1, a1, b1, c1, d1) = (
            m.drop_last(),
            a.drop_last(),
            b.drop_last(),
            c.drop_last(),
            d.drop_last(),
        );
        assert forall|i: int| 0 <= i < m1.len() implies k * #[trigger] m1[i] == p * a1[i] + q
            * b1[i] + q * c1[i] + p * d1[i] by {
            assert(m1[i] == m[i]);
        }
        lemma_total_mean(m1, k, a1, b1, c1, d1, p, q);
        let last = m.len() - 1;
        assert(k * m[last] == p * a[last] + q * b[last] + q * c[last] + p * d[last]);
        let (tm, ta, tb, tc, td) = (total(m1), total(a1), total(b1), total(c1), total(d1));
        let (lm, la, lb, lc, ld) = (m[last], a[last], b[last], c[last], d[last]);
        assert(k * (tm + lm) == k * tm + k * lm) by (nonlinear_arith);
        assert(p * (ta + la) == p * ta + p * la) by (nonlinear_arith);
        assert(q * (tb + lb) == q * tb + q * lb) by (nonlinear_arith);
        assert(q * (tc + lc) == q * tc + q * lc) by (nonlinear_arith);
        assert(p * (td + ld) == p * td + p * ld) by (nonlinear_arith);
    }
}

/// An exact step keeps the centre.
proof fn lemma_step_keeps_centre(g: Graph, from: Seq<Binary32>, place: Seq<Binary32>, axis: Axis)
    requires
        graph_valid(g),
        step_exact(g, from, place),
    ensures
        centre(stepped(g, from, place), g.n, axis) == centre(from, g.n, axis),
{
    let a = values(from, g.n, axis);
    let b = values(g.gradients(place), g.n, axis);
    let c = values(stepped(g, from, place), g.n, axis);
    let s = step_at(g, place).value();
    let scale = pow2(149) as int;
    assert forall|i: int| 0 <= i < a.len() implies #[trigger] c[i] * scale == a[i] * scale - s
        * b[i] by {
        let j = at(g.n, i, axis);
        assert(stepped(g, from, place)[j].value() * pow2(149) == from[j].value() * pow2(149) - s
            * g.gradients(place)[j].value());
    }
    law_gradient_balanced(g, place, axis);
    lemma_total_step(a, b, c, s, scale);
    lemma_pow2_pos(149);
    let (ta, tc) = (total(a), total(c));
    assert(s * 0 == 0);
    assert(tc == ta) by (nonlinear_arith)
        requires
            tc * scale == ta * scale,
            scale > 0,
    ;
}

/// Exact positions half way keep a common centre.
proof fn lemma_midway_keeps_centre(x: Seq<Binary32>, a: Seq<Binary32>, n: nat, axis: Axis)
    requires
        midway_exact(x, a, 2 * n),
        centre(a, n, axis) == centre(x, n, axis),
    ensures
        centre(midway(x, a, 2 * n), n, axis) == centre(x, n, axis),
{
    let (m, p, q) = (
        values(midway(x, a, 2 * n), n, axis),
        values(x, n, axis),
        values(a, n, axis),
    );
    assert forall|i: int| 0 <= i < m.len() implies 2 * #[trigger] m[i] == 1 * p[i] + 0 * p[i] + 0
        * p[i] + 1 * q[i] by {
        let j = at(n, i, axis);
        assert(2 * midway(x, a, 2 * n)[j].value() == x[j].value() + a[j].value());
    }
    lemma_total_mean(m, 2, p, p, p, q, 1, 0);
}

/// An exact mean of stages keeps a common centre.
proof fn lemma_blend_keeps_centre(
    a: Seq<Binary32>,
    b: Seq<Binary32>,
    c: Seq<Binary32>,
    d: Seq<Binary32>,
    n: nat,
    axis: Axis,
)
    requires
        blend_exact(a, b, c, d, 2 * n),
        centre(a, n, axis) == centre(b, n, axis),
        centre(a, n, axis) == centre(c, n, axis),
        centre(a, n, axis) == centre(d, n, axis),
    ensures
        centre(blended(a, b, c, d, 2 * n), n, axis) == centre(a, n, axis),
{
    let m = values(blended(a, b, c, d, 2 * n), n, axis);
    let (p, q, r, s) = (
        values(a, n, axis),
        values(b, n, axis),
        values(c, n, axis),
        values(d, n, axis),
    );
    assert forall|i: int| 0 <= i < m.len() implies 6 * #[trigger] m[i] == 1 * p[i] + 2 * q[i] + 2
        * r[i] + 1 * s[i] by {
        let j = at(n, i, axis);
        assert(6 * blended(a, b, c, d, 2 * n)[j].value() == a[j].value() + 2 * b[j].value() + 2
            * c[j].value() + d[j].value());
    }
    lemma_total_mean(m, 6, p, q, r, s, 1, 2);
}

/// Whether a step of the integrator without locks is taken without rounding, and no nodes coincide
/// where it takes a gradient.
pub open spec fn tick_exact(g: Graph, x: Seq<Binary32>, mode: u32) -> bool {
    let len = 2 * g.n;
    let a = stepped(g, x, x);
    let ia = midway(x, a, len);
    if mode == 0 {
        let b = stepped(g, ia, ia);
        let ib = midway(x, b, len);
        let c = stepped(g, ib, ib);
        let d = stepped(g, c, c);
        &&& separated(g.n, x) && step_exact(g, x, x)
        &&& midway_exact(x, a, len) && separated(g.n, ia) && step_exact(g, ia, ia)
        &&& midway_exact(x, b, len) && separated(g.n, ib) && step_exact(g, ib, ib)
        &&& separated(g.n, c) && step_exact(g, c, c)
        &&& blend_exact(a, b, c, d, len)
    } else if mode == 1 {
        &&& separated(g.n, x) && step_exact(g, x, x)
        &&& midway_exact(x, a, len) && separated(g.n, ia) && step_exact(g, x, ia)
    } else {
        separated(g.n, x) && step_exact(g, x, x)
    }
}

/// The centre of the positions is kept: where nothing is locked, nothing rounds and no nodes
/// coincide, a step of the integrator keeps the sum of the positions along each axis, in every mode.
pub proof fn law_centre_kept(w: World, x: Seq<Binary32>, draws: u64, mode: u32, axis: Axis)
    requires
        graph_valid(w.graph),
        w.locks.len() == 0,
        tick_exact(w.graph, x, mode),
    ensures
        centre(w.tick(x, draws, mode).x, w.graph.n, axis) == centre(x, w.graph.n, axis),
{
    let g = w.graph;
    let n = g.n;
    let len = 2 * n;
    let a = stepped(g, x, x);
    let ia = midway(x, a, len);
    assert forall|y: Seq<Binary32>, k: u64| separated(n, y) implies #[trigger] w.settle(y, k)
        == (Drift { x: y, draws: k }) by {
        law_separated_stays(n, w.min_d, Drift { x: y, draws: k });
    }
    lemma_step_keeps_centre(g, x, x, axis);
    if mode == 0 {
        let b = stepped(g, ia, ia);
        let ib = midway(x, b, len);
        let c = stepped(g, ib, ib);
        let d = stepped(g, c, c);
        lemma_midway_keeps_centre(x, a, n, axis);
        lemma_step_keeps_centre(g, ia, ia, axis);
        lemma_midway_keeps_centre(x, b, n, axis);
        lemma_step_keeps_centre(g, ib, ib, axis);
        lemma_step_keeps_centre(g, c, c, axis);
        lemma_blend_keeps_centre(a, b, c, d, n, axis);
        assert(w.tick(x, draws, mode) == w.runge_kutta(x, draws));
        assert(w.runge_kutta(x, draws).x == blended(a, b, c, d, len));
    } else if mode == 1 {
        lemma_step_keeps_centre(g, x, ia, axis);
        assert(w.tick(x, draws, mode) == w.midpoint(x, draws));
        assert(w.midpoint(x, draws).x == stepped(g, x, ia));
    } else {
        assert(w.tick(x, draws, mode) == w.gradient_descent(x, draws));
        assert(w.gradient_descent(x, draws).x == a);
    }
}

} // verus!
