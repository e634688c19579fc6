//! How a sweep answers to symmetries: exchanged nodes, mirrored positions and exchanged axes.
use crate::binary32::{lit, size, Binary32};
use crate::model::{
    at, curvature, delta, diagonal, diagonals, dist2, entry, force, least_dist2, pair_of, pull,
    separated, ActivePair, Axis, Graph, INFINITY, TWO,
};
use crate::rounding::lemma_round_at_most;
use crate::sampling::ONE;
use crate::topology::graph_valid;
use vstd::arithmetic::power2::{lemma_pow2_pos, pow2};
use vstd::prelude::*;

verus! {

/// Whether two numbers are opposite, up to the sign of zero: of the same magnitude, and of different
/// sign unless they are zero or a NaN.
pub open spec fn opposite(a: Binary32, b: Binary32) -> bool {
    &&& a.magnitude() == b.magnitude()
    &&& a.magnitude() == 0 || a.nan() || a.negative() != b.negative()
}

proof fn lemma_negated_opposite(a: Binary32)
    ensures
        opposite(a, a.negated()),
        opposite(a.negated(), a),
{
}

/// Opposite terms have opposite sums.
proof fn lemma_plus_opposite(a: Binary32, b: Binary32, c: Binary32, d: Binary32)
    requires
        opposite(a, b),
        opposite(c, d),
    ensures
        opposite(a.plus(c), b.plus(d)),
{
    reveal(Binary32::plus);
    assert(a.finite() ==> b.value() == -a.value());
    assert(c.finite() ==> d.value() == -c.value());
}

/// Opposite terms have opposite differences.
proof fn lemma_minus_opposite(a: Binary32, b: Binary32, c: Binary32, d: Binary32)
    requires
        opposite(a, b),
        opposite(c, d),
    ensures
        opposite(a.minus(c), b.minus(d)),
{
    lemma_plus_opposite(a, b, c.negated(), d.negated());
}

/// A sum does not depend on the order of its terms.
proof fn lemma_plus_commutes(a: Binary32, b: Binary32)
    ensures
        a.plus(b) == b.plus(a),
{
    reveal(Binary32::plus);
}

/// The magnitude of a product depends on the magnitudes of its factors, and its sign on theirs.
proof fn lemma_times_signs(a: Binary32, b: Binary32, c: Binary32, d: Binary32)
    requires
        a.magnitude() == c.magnitude(),
        b.magnitude() == d.magnitude(),
    ensures
        a.times(b).magnitude() == c.times(d).magnitude(),
        (a.negative() != b.negative()) == (c.negative() != d.negative()) ==> a.times(b) == c.times(
            d,
        ),
        a.times(b).nan() || a.times(b).negative() == (a.negative() != b.negative()),
        a.nan() || b.nan() ==> a.times(b).nan(),
{
    reveal(Binary32::times);
    assert(size(a.value()) == size(c.value()));
    assert(size(b.value()) == size(d.value()));
}

/// A product with one opposite factor is opposite.
proof fn lemma_times_opposite(a: Binary32, b: Binary32, c: Binary32)
    requires
        opposite(a, b),
    ensures
        opposite(a.times(c), b.times(c)),
{
    lemma_times_signs(a, c, b, c);
    lemma_times_signs(b, c, a, c);
    if a.magnitude() == 0 {
        lemma_times_zero(a, c);
    }
}

/// Zero times anything is zero or a NaN.
proof fn lemma_times_zero(a: Binary32, b: Binary32)
    requires
        a.magnitude() == 0,
    ensures
        a.times(b).magnitude() == 0 || a.times(b).nan(),
{
    reveal(Binary32::times);
    if b.finite() {
        let z = size(a.value());
        let w = size(b.value());
        assert(z == 0);
        assert(z * w == 0) by (nonlinear_arith)
            requires
                z == 0,
        ;
        lemma_pow2_pos(149);
        lemma_round_at_most(0, pow2(149), 0);
    }
}

/// A product with the square of a number does not depend on the sign of that number.
proof fn lemma_square_signs(c: Binary32, a: Binary32, b: Binary32)
    requires
        opposite(a, b),
    ensures
        a.times(a) == b.times(b),
        c.times(a).times(a) == c.times(b).times(b),
{
    lemma_times_signs(a, a, b, b);
    lemma_times_signs(c, a, c, b);
    lemma_times_signs(c, b, c, a);
    let p = c.times(a);
    let q = c.times(b);
    lemma_times_signs(p, a, q, b);
    lemma_times_signs(q, b, p, a);
    if p.nan() {
        reveal(Binary32::times);
    }
}

/// The distance of two nodes does not depend on their order, so that a pair is visited once, with
/// opposite contributions to the gradient at its ends: exchanging the nodes keeps the magnitude of
/// the contribution and turns its sign, unless it is a NaN or zero.
pub proof fn law_forces_opposite(
    n: nat,
    x: Seq<Binary32>,
    u: int,
    v: int,
    s: Binary32,
    axis: Axis,
)
    ensures
        dist2(n, x, u, v) == dist2(n, x, v, u),
        opposite(force(n, x, u, v, s, axis), force(n, x, v, u, s, axis)),
{
    lemma_delta_swapped(n, x, u, v, Axis::X);
    lemma_delta_swapped(n, x, u, v, Axis::Y);
    lemma_delta_swapped(n, x, u, v, axis);
    let p = pull(dist2(n, x, u, v), s);
    let dx = delta(n, x, u, v, Axis::X);
    let dy = delta(n, x, u, v, Axis::Y);
    lemma_square_signs(p, dx, delta(n, x, v, u, Axis::X));
    lemma_square_signs(p, dy, delta(n, x, v, u, Axis::Y));
    lemma_times_opposite(delta(n, x, u, v, axis), delta(n, x, v, u, axis), p);
}

proof fn lemma_delta_swapped(n: nat, x: Seq<Binary32>, u: int, v: int, axis: Axis)
    ensures
        opposite(delta(n, x, u, v, axis), delta(n, x, v, u, axis)),
{
    let a = x[at(n, u, axis)];
    let b = x[at(n, v, axis)];
    lemma_plus_commutes(b, a.negated());
    lemma_negated_opposite(a);
    lemma_negated_opposite(b);
    lemma_plus_opposite(a, a.negated(), b.negated(), b);
}

/// The mirror image of positions.
pub open spec fn mirrored(x: Seq<Binary32>) -> Seq<Binary32> {
    Seq::new(x.len(), |i: int| x[i].negated())
}

proof fn lemma_mirrored_delta(n: nat, x: Seq<Binary32>, u: int, v: int, axis: Axis)
    requires
        2 * n <= x.len(),
        0 <= u < n,
        0 <= v < n,
    ensures
        opposite(delta(n, x, u, v, axis), delta(n, mirrored(x), u, v, axis)),
{
    let a = x[at(n, u, axis)];
    let b = x[at(n, v, axis)];
    lemma_negated_opposite(a);
    lemma_negated_opposite(b);
    lemma_minus_opposite(a, a.negated(), b, b.negated());
}

/// The mirror image of a pair: the same distance and record, and the opposite force.
proof fn lemma_mirrored_pair(n: nat, x: Seq<Binary32>, u: int, v: int, s: Binary32, axis: Axis)
    requires
        2 * n <= x.len(),
        0 <= u < n,
        0 <= v < n,
    ensures
        dist2(n, mirrored(x), u, v) == dist2(n, x, u, v),
        pair_of(n, mirrored(x), u, v, s) == pair_of(n, x, u, v, s),
        opposite(force(n, x, u, v, s, axis), force(n, mirrored(x), u, v, s, axis)),
{
    let y = mirrored(x);
    lemma_mirrored_delta(n, x, u, v, Axis::X);
    lemma_mirrored_delta(n, x, u, v, Axis::Y);
    lemma_mirrored_delta(n, x, u, v, axis);
    let (dx, ex) = (delta(n, x, u, v, Axis::X), delta(n, y, u, v, Axis::X));
    let (dy, ey) = (delta(n, x, u, v, Axis::Y), delta(n, y, u, v, Axis::Y));
    lemma_square_signs(dx, dx, ex);
    lemma_square_signs(dy, dy, ey);
    let d2 = dist2(n, x, u, v);
    assert(dist2(n, y, u, v) == d2);
    lemma_mirrored_curvature(d2, s, dx, ex);
    lemma_mirrored_curvature(d2, s, dy, ey);
    lemma_times_opposite(delta(n, x, u, v, axis), delta(n, y, u, v, axis), pull(d2, s));
}

proof fn lemma_mirrored_curvature(d2: Binary32, s: Binary32, a: Binary32, b: Binary32)
    requires
        opposite(a, b),
    ensures
        curvature(d2, s, a) == curvature(d2, s, b),
{
    let r = lit(ONE).over(d2.root());
    let rid2 = lit(ONE).over(s.times(s));
    let c = lit(TWO).times(rid2).times(s).times(r.times(r).times(r));
    lemma_square_signs(c, a, b);
}

/// The contributions of the edges at a node are opposite, and their records the same.
proof fn lemma_mirrored_edges(g: Graph, x: Seq<Binary32>, w: int, axis: Axis, k: nat)
    requires
        graph_valid(g),
        2 * g.n <= x.len(),
        k <= g.edges.len(),
    ensures
        opposite(g.edge_gradient(x, w, axis, k), g.edge_gradient(mirrored(x), w, axis, k)),
        g.edge_pairs(mirrored(x), k) == g.edge_pairs(x, k),
    decreases k,
{
    if k > 0 {
        lemma_mirrored_edges(g, x, w, axis, (k - 1) as nat);
        let y = mirrored(x);
        let e = g.edges[k - 1];
        lemma_mirrored_pair(g.n, x, e.u as int, e.v as int, e.ideal, axis);
        let (a, b) = (
            g.edge_gradient(x, w, axis, (k - 1) as nat),
            g.edge_gradient(y, w, axis, (k - 1) as nat),
        );
        let (f, h) = (
            force(g.n, x, e.u as int, e.v as int, e.ideal, axis),
            force(g.n, y, e.u as int, e.v as int, e.ideal, axis),
        );
        lemma_plus_opposite(a, b, f, h);
        lemma_minus_opposite(a, b, f, h);
    }
}

proof fn lemma_mirrored_column(g: Graph, x: Seq<Binary32>, w: int, axis: Axis, r: nat)
    requires
        graph_valid(g),
        2 * g.n <= x.len(),
        r <= w < g.n,
    ensures
        opposite(g.column_gradient(x, w, axis, r), g.column_gradient(mirrored(x), w, axis, r)),
    decreases r,
{
    if r == 0 {
        lemma_mirrored_edges(g, x, w, axis, g.edges.len());
    } else {
        lemma_mirrored_column(g, x, w, axis, (r - 1) as nat);
        let s = g.swept(r - 1, w);
        lemma_mirrored_pair(g.n, x, r - 1, w, s, axis);
        lemma_minus_opposite(
            g.column_gradient(x, w, axis, (r - 1) as nat),
            g.column_gradient(mirrored(x), w, axis, (r - 1) as nat),
            force(g.n, x, r - 1, w, s, axis),
            force(g.n, mirrored(x), r - 1, w, s, axis),
        );
    }
}

proof fn lemma_mirrored_row(g: Graph, x: Seq<Binary32>, u: int, axis: Axis, end: int)
    requires
        2 * g.n <= x.len(),
        0 <= u,
        end <= g.n,
    ensures
        opposite(g.row_gradient(x, u, axis, end), g.row_gradient(mirrored(x), u, axis, end)),
        g.row_pairs(mirrored(x), u, end) == g.row_pairs(x, u, end),
    decreases end - u,
{
    if end > u + 1 {
        lemma_mirrored_row(g, x, u, axis, end - 1);
        let s = g.swept(u, end - 1);
        lemma_mirrored_pair(g.n, x, u, end - 1, s, axis);
        lemma_plus_opposite(
            g.row_gradient(x, u, axis, end - 1),
            g.row_gradient(mirrored(x), u, axis, end - 1),
            force(g.n, x, u, end - 1, s, axis),
            force(g.n, mirrored(x), u, end - 1, s, axis),
        );
    }
}

proof fn lemma_mirrored_rows(g: Graph, x: Seq<Binary32>, r: nat)
    requires
        2 * g.n <= x.len(),
        r <= g.n,
    ensures
        g.rows_pairs(mirrored(x), r) == g.rows_pairs(x, r),
    decreases r,
{
    if r > 0 {
        lemma_mirrored_rows(g, x, (r - 1) as nat);
        lemma_mirrored_row(g, x, r - 1, Axis::X, g.n as int);
    }
}

proof fn lemma_mirrored_gradient(g: Graph, x: Seq<Binary32>, w: int, axis: Axis)
    requires
        graph_valid(g),
        2 * g.n <= x.len(),
        0 <= w < g.n,
    ensures
        opposite(g.gradient(x, w, axis), g.gradient(mirrored(x), w, axis)),
{
    lemma_mirrored_column(g, x, w, axis, w as nat);
    lemma_mirrored_row(g, x, w, axis, g.n as int);
    lemma_plus_opposite(
        g.column_gradient(x, w, axis, w as nat),
        g.column_gradient(mirrored(x), w, axis, w as nat),
        g.row_gradient(x, w, axis, g.n as int),
        g.row_gradient(mirrored(x), w, axis, g.n as int),
    );
}

/// The mirror image of positions has the same least squared distance and the same active pairs, and
/// its gradient is the opposite one, up to the sign of zero.
pub proof fn law_mirrored(g: Graph, x: Seq<Binary32>)
    requires
        graph_valid(g),
        2 * g.n <= x.len(),
    ensures
        forall|m: Binary32| #[trigger]
            least_dist2(g.n, mirrored(x), m) == least_dist2(g.n, x, m),
        separated(g.n, mirrored(x)) == separated(g.n, x),
        g.active_pairs(mirrored(x)) == g.active_pairs(x),
        forall|i: int|
            0 <= i < 2 * g.n ==> opposite(
                #[trigger] g.gradients(x)[i],
                g.gradients(mirrored(x))[i],
            ),
{
    let y = mirrored(x);
    assert forall|u: int, v: int| 0 <= u < v < g.n implies #[trigger] dist2(g.n, y, u, v) == dist2(
        g.n,
        x,
        u,
        v,
    ) by {
        lemma_mirrored_pair(g.n, x, u, v, lit(0), Axis::X);
    }
    lemma_same_distances(g.n, x, y);
    lemma_mirrored_edges(g, x, 0, Axis::X, g.edges.len());
    lemma_mirrored_rows(g, x, g.n);
    assert forall|i: int| 0 <= i < 2 * g.n implies opposite(
        #[trigger] g.gradients(x)[i],
        g.gradients(y)[i],
    ) by {
        if i < g.n {
            lemma_mirrored_gradient(g, x, i, Axis::X);
        } else {
            lemma_mirrored_gradient(g, x, i - g.n, Axis::Y);
        }
    }
}

/// What is said of the squared distances depends on them alone.
proof fn lemma_same_distances(n: nat, x: Seq<Binary32>, y: Seq<Binary32>)
    requires
        forall|u: int, v: int|
            0 <= u < v < n ==> #[trigger] dist2(n, y, u, v) == dist2(n, x, u, v),
    ensures
        forall|m: Binary32| #[trigger] least_dist2(n, y, m) == least_dist2(n, x, m),
        separated(n, y) == separated(n, x),
{
    assert forall|m: Binary32| #[trigger] least_dist2(n, y, m) == least_dist2(n, x, m) by {
        if least_dist2(n, y, m) {
            lemma_same_least(n, y, x, m);
        }
        if least_dist2(n, x, m) {
            lemma_same_least(n, x, y, m);
        }
    }
    assert forall|u: int, v: int| 0 <= u < v < n implies #[trigger] dist2(n, x, u, v) == dist2(
        n,
        y,
        u,
        v,
    ) by {
        assert(dist2(n, y, u, v) == dist2(n, x, u, v));
    }
}

proof fn lemma_same_least(n: nat, x: Seq<Binary32>, y: Seq<Binary32>, m: Binary32)
    requires
        forall|u: int, v: int|
            #![trigger dist2(n, x, u, v)]
            #![trigger dist2(n, y, u, v)]
            0 <= u < v < n ==> dist2(n, y, u, v) == dist2(n, x, u, v),
        least_dist2(n, x, m),
    ensures
        least_dist2(n, y, m),
{
    if m != lit(INFINITY) {
        let (u, v) = choose|u: int, v: int| 0 <= u < v < n && m == #[trigger] dist2(n, x, u, v);
        assert(m == dist2(n, y, u, v));
    }
}

/// Positions, or a gradient, with the two coordinates of every node exchanged.
pub open spec fn exchanged(n: nat, x: Seq<Binary32>) -> Seq<Binary32> {
    Seq::new(
        2 * n,
        |i: int|
            if i < n {
                x[n + i]
            } else {
                x[i - n]
            },
    )
}

/// The other axis.
pub open spec fn other(axis: Axis) -> Axis {
    match axis {
        Axis::X => Axis::Y,
        Axis::Y => Axis::X,
    }
}

/// An active pair with its entries exchanged.
pub open spec fn turned(p: ActivePair) -> ActivePair {
    ActivePair { u: p.u, v: p.v, idk_x: p.idk_y, idk_y: p.idk_x }
}

/// Active pairs with their entries exchanged.
pub open spec fn all_turned(pairs: Seq<ActivePair>) -> Seq<ActivePair> {
    Seq::new(pairs.len(), |i: int| turned(pairs[i]))
}

proof fn lemma_exchanged_pair(n: nat, x: Seq<Binary32>, u: int, v: int, s: Binary32, axis: Axis)
    requires
        0 <= u < n,
        0 <= v < n,
    ensures
        dist2(n, exchanged(n, x), u, v) == dist2(n, x, u, v),
        pair_of(n, exchanged(n, x), u, v, s) == turned(pair_of(n, x, u, v, s)),
        force(n, exchanged(n, x), u, v, s, axis) == force(n, x, u, v, s, other(axis)),
{
    let z = exchanged(n, x);
    assert(z[u] == x[n + u] && z[v] == x[n + v] && z[n + u] == x[u] && z[n + v] == x[v]);
    let dx = delta(n, x, u, v, Axis::X);
    let dy = delta(n, x, u, v, Axis::Y);
    assert(delta(n, z, u, v, Axis::X) == dy && delta(n, z, u, v, Axis::Y) == dx);
    lemma_plus_commutes(dx.times(dx), dy.times(dy));
}

proof fn lemma_exchanged_edges(g: Graph, x: Seq<Binary32>, w: int, axis: Axis, k: nat)
    requires
        graph_valid(g),
        k <= g.edges.len(),
    ensures
        g.edge_gradient(exchanged(g.n, x), w, axis, k) == g.edge_gradient(x, w, other(axis), k),
        g.edge_pairs(exchanged(g.n, x), k) == all_turned(g.edge_pairs(x, k)),
    decreases k,
{
    let z = exchanged(g.n, x);
    if k > 0 {
        lemma_exchanged_edges(g, x, w, axis, (k - 1) as nat);
        let e = g.edges[k - 1];
        lemma_exchanged_pair(g.n, x, e.u as int, e.v as int, e.ideal, axis);
    }
    assert(g.edge_pairs(z, k) =~= all_turned(g.edge_pairs(x, k)));
}

proof fn lemma_exchanged_column(g: Graph, x: Seq<Binary32>, w: int, axis: Axis, r: nat)
    requires
        graph_valid(g),
        r <= w < g.n,
    ensures
        g.column_gradient(exchanged(g.n, x), w, axis, r) == g.column_gradient(
            x,
            w,
            other(axis),
            r,
        ),
    decreases r,
{
    if r == 0 {
        lemma_exchanged_edges(g, x, w, axis, g.edges.len());
    } else {
        lemma_exchanged_column(g, x, w, axis, (r - 1) as nat);
        lemma_exchanged_pair(g.n, x, r - 1, w, g.swept(r - 1, w), axis);
    }
}

proof fn lemma_exchanged_row(g: Graph, x: Seq<Binary32>, u: int, axis: Axis, end: int)
    requires
        0 <= u,
        end <= g.n,
    ensures
        g.row_gradient(exchanged(g.n, x), u, axis, end) == g.row_gradient(x, u, other(axis), end),
        g.row_pairs(exchanged(g.n, x), u, end) == all_turned(g.row_pairs(x, u, end)),
    decreases end - u,
{
    let z = exchanged(g.n, x);
    if end > u + 1 {
        lemma_exchanged_row(g, x, u, axis, end - 1);
        lemma_exchanged_pair(g.n, x, u, end - 1, g.swept(u, end - 1), axis);
    }
    assert(g.row_pairs(z, u, end) =~= all_turned(g.row_pairs(x, u, end)));
}

proof fn lemma_exchanged_rows(g: Graph, x: Seq<Binary32>, r: nat)
    requires
        r <= g.n,
    ensures
        g.rows_pairs(exchanged(g.n, x), r) == all_turned(g.rows_pairs(x, r)),
    decreases r,
{
    if r > 0 {
        lemma_exchanged_rows(g, x, (r - 1) as nat);
        lemma_exchanged_row(g, x, r - 1, Axis::X, g.n as int);
    }
    assert(g.rows_pairs(exchanged(g.n, x), r) =~= all_turned(g.rows_pairs(x, r)));
}

proof fn lemma_turned_diagonal(pairs: Seq<ActivePair>, w: int, axis: Axis, k: nat)
    requires
        k <= pairs.len(),
    ensures
        diagonal(all_turned(pairs), w, axis, k) == diagonal(pairs, w, other(axis), k),
    decreases k,
{
    if k > 0 {
        lemma_turned_diagonal(pairs, w, axis, (k - 1) as nat);
        assert(entry(turned(pairs[k - 1]), axis) == entry(pairs[k - 1], other(axis)));
    }
}

/// Positions with exchanged axes have the same least squared distance and the same active pairs with
/// exchanged entries of the Hessian; the gradient and the diagonal of the Hessian are exchanged too.
pub proof fn law_exchanged(g: Graph, x: Seq<Binary32>)
    requires
        graph_valid(g),
    ensures
        forall|m: Binary32| #[trigger]
            least_dist2(g.n, exchanged(g.n, x), m) == least_dist2(g.n, x, m),
        separated(g.n, exchanged(g.n, x)) == separated(g.n, x),
        g.active_pairs(exchanged(g.n, x)) == all_turned(g.active_pairs(x)),
        g.gradients(exchanged(g.n, x)) == exchanged(g.n, g.gradients(x)),
        diagonals(g.active_pairs(exchanged(g.n, x)), g.n) == exchanged(
            g.n,
            diagonals(g.active_pairs(x), g.n),
        ),
{
    let z = exchanged(g.n, x);
    assert forall|u: int, v: int| 0 <= u < v < g.n implies #[trigger] dist2(g.n, z, u, v) == dist2(
        g.n,
        x,
        u,
        v,
    ) by {
        lemma_exchanged_pair(g.n, x, u, v, lit(0), Axis::X);
    }
    lemma_same_distances(g.n, x, z);
    lemma_exchanged_edges(g, x, 0, Axis::X, g.edges.len());
    lemma_exchanged_rows(g, x, g.n);
    assert(g.active_pairs(z) =~= all_turned(g.active_pairs(x)));
    assert forall|w: int, axis: Axis| 0 <= w < g.n implies #[trigger] g.gradient(z, w, axis)
        == g.gradient(x, w, other(axis)) by {
        lemma_exchanged_column(g, x, w, axis, w as nat);
        lemma_exchanged_row(g, x, w, axis, g.n as int);
    }
    assert(g.gradients(z) =~= exchanged(g.n, g.gradients(x))) by {
        assert forall|i: int| 0 <= i < 2 * g.n implies g.gradients(z)[i] == exchanged(
            g.n,
            g.gradients(x),
        )[i] by {
            if i < g.n {
                assert(g.gradients(x)[g.n + i] == g.gradient(x, i, Axis::Y));
                assert(other(Axis::X) == Axis::Y);
                assert(g.gradient(z, i, Axis::X) == g.gradient(x, i, other(Axis::X)));
            } else {
                assert(g.gradients(x)[i - g.n] == g.gradient(x, i - g.n, Axis::X));
                assert(other(Axis::Y) == Axis::X);
                assert(g.gradient(z, i - g.n, Axis::Y) == g.gradient(x, i - g.n, other(Axis::Y)));
            }
        }
    }
    let pairs = g.active_pairs(x);
    assert(diagonals(all_turned(pairs), g.n) =~= exchanged(g.n, diagonals(pairs, g.n))) by {
        assert forall|i: int| 0 <= i < 2 * g.n implies diagonals(all_turned(pairs), g.n)[i]
            == exchanged(g.n, diagonals(pairs, g.n))[i] by {
            if i < g.n {
                lemma_turned_diagonal(pairs, i, Axis::X, pairs.len());
                assert(diagonals(pairs, g.n)[g.n + i] == diagonal(pairs, i, Axis::Y, pairs.len()));
            } else {
                lemma_turned_diagonal(pairs, i - g.n, Axis::Y, pairs.len());
                assert(diagonals(pairs, g.n)[i - g.n] == diagonal(
                    pairs,
                    i - g.n,
                    Axis::X,
                    pairs.len(),
                ));
            }
        }
    }
}

} // verus!
