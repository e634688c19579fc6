//! Nodes that are connected with nothing change nothing for the others.
use crate::binary32::{lit, Binary32};
use crate::model::{diagonals, dist2, force, pair_of, ActivePair, Axis, Graph};
use crate::motion::{hessian_form, locked_form, pair_sum, pair_term};
use crate::rounding::magnitude_value;
use crate::topology::graph_valid;
use crate::weights::lemma_zero_never_active;
use vstd::prelude::*;

verus! {

/// Whether `h` at the positions `y` is the graph `g` at the positions `x` with more nodes at the end,
/// which are connected with nothing.
pub open spec fn extended(g: Graph, h: Graph, x: Seq<Binary32>, y: Seq<Binary32>) -> bool {
    &&& g.n <= h.n
    &&& g.p_stress == h.p_stress
    &&& g.edges == h.edges
    &&& forall|u: int, v: int|
        0 <= u < v < g.n ==> #[trigger] h.swept(u, v) == g.swept(u, v)
    &&& forall|u: int, v: int| 0 <= u < v < h.n && v >= g.n ==> #[trigger] h.swept(u, v) == lit(0)
    &&& forall|u: int| 0 <= u < g.n ==> #[trigger] y[u] == x[u]
    &&& forall|u: int| 0 <= u < g.n ==> y[h.n + u] == #[trigger] x[g.n + u]
}

proof fn lemma_same_pair(
    g: Graph,
    h: Graph,
    x: Seq<Binary32>,
    y: Seq<Binary32>,
    u: int,
    v: int,
    s: Binary32,
)
    requires
        extended(g, h, x, y),
        0 <= u < g.n,
        0 <= v < g.n,
    ensures
        dist2(h.n, y, u, v) == dist2(g.n, x, u, v),
        pair_of(h.n, y, u, v, s) == pair_of(g.n, x, u, v, s),
        force(h.n, y, u, v, s, Axis::X) == force(g.n, x, u, v, s, Axis::X),
        force(h.n, y, u, v, s, Axis::Y) == force(g.n, x, u, v, s, Axis::Y),
{
    assert(y[u] == x[u] && y[v] == x[v]);
    assert(y[h.n + u] == x[g.n + u] && y[h.n + v] == x[g.n + v]);
}

proof fn lemma_same_activity(
    g: Graph,
    h: Graph,
    x: Seq<Binary32>,
    y: Seq<Binary32>,
    u: int,
    v: int,
)
    requires
        extended(g, h, x, y),
        0 <= u < v < h.n,
    ensures
        v < g.n ==> h.pair_active(y, u, v) == g.pair_active(x, u, v),
        v >= g.n ==> !h.pair_active(y, u, v),
{
    if v < g.n {
        lemma_same_pair(g, h, x, y, u, v, lit(0));
        assert(h.swept(u, v) == g.swept(u, v));
    } else {
        assert(h.swept(u, v) == lit(0));
        lemma_zero_never_active(dist2(h.n, y, u, v));
    }
}

proof fn lemma_same_edges(
    g: Graph,
    h: Graph,
    x: Seq<Binary32>,
    y: Seq<Binary32>,
    w: int,
    axis: Axis,
    k: nat,
)
    requires
        graph_valid(g),
        extended(g, h, x, y),
        k <= g.edges.len(),
    ensures
        h.edge_gradient(y, w, axis, k) == g.edge_gradient(x, w, axis, k),
        h.edge_pairs(y, k) == g.edge_pairs(x, k),
        w >= g.n ==> h.edge_gradient(y, w, axis, k) == lit(0),
    decreases k,
{
    if k > 0 {
        lemma_same_edges(g, h, x, y, w, axis, (k - 1) as nat);
        let e = g.edges[k - 1];
        lemma_same_pair(g, h, x, y, e.u as int, e.v as int, e.ideal);
        assert(h.edge_active(y, k - 1) == g.edge_active(x, k - 1));
    }
}

proof fn lemma_same_column(
    g: Graph,
    h: Graph,
    x: Seq<Binary32>,
    y: Seq<Binary32>,
    w: int,
    axis: Axis,
    r: nat,
)
    requires
        graph_valid(g),
        extended(g, h, x, y),
        r <= w < h.n,
    ensures
        w < g.n ==> h.column_gradient(y, w, axis, r) == g.column_gradient(x, w, axis, r),
        w >= g.n ==> h.column_gradient(y, w, axis, r) == lit(0),
    decreases r,
{
    if r > 0 {
        lemma_same_column(g, h, x, y, w, axis, (r - 1) as nat);
        lemma_same_activity(g, h, x, y, r - 1, w);
        if w < g.n {
            assert(h.swept(r - 1, w) == g.swept(r - 1, w));
            lemma_same_pair(g, h, x, y, r - 1, w, g.swept(r - 1, w));
        }
    } else {
        lemma_same_edges(g, h, x, y, w, axis, g.edges.len());
    }
}

proof fn lemma_same_row(
    g: Graph,
    h: Graph,
    x: Seq<Binary32>,
    y: Seq<Binary32>,
    u: int,
    axis: Axis,
    end: int,
)
    requires
        extended(g, h, x, y),
        0 <= u < end <= h.n,
    ensures
        u < g.n && end <= g.n ==> h.row_gradient(y, u, axis, end) == g.row_gradient(
            x,
            u,
            axis,
            end,
        ) && h.row_pairs(y, u, end) == g.row_pairs(x, u, end),
        u < g.n && end >= g.n ==> h.row_gradient(y, u, axis, end) == g.row_gradient(
            x,
            u,
            axis,
            g.n as int,
        ) && h.row_pairs(y, u, end) == g.row_pairs(x, u, g.n as int),
        u >= g.n ==> h.row_gradient(y, u, axis, end) == lit(0) && h.row_pairs(y, u, end)
            == Seq::<ActivePair>::empty(),
    decreases end - u,
{
    if end > u + 1 {
        lemma_same_row(g, h, x, y, u, axis, end - 1);
        lemma_same_activity(g, h, x, y, u, end - 1);
        if end - 1 < g.n {
            assert(h.swept(u, end - 1) == g.swept(u, end - 1));
            lemma_same_pair(g, h, x, y, u, end - 1, g.swept(u, end - 1));
        }
    }
}

proof fn lemma_same_rows(g: Graph, h: Graph, x: Seq<Binary32>, y: Seq<Binary32>, r: nat)
    requires
        extended(g, h, x, y),
        r <= h.n,
    ensures
        r <= g.n ==> h.rows_pairs(y, r) == g.rows_pairs(x, r),
        r >= g.n ==> h.rows_pairs(y, r) == g.rows_pairs(x, g.n),
    decreases r,
{
    if r > 0 {
        lemma_same_rows(g, h, x, y, (r - 1) as nat);
        lemma_same_row(g, h, x, y, r - 1, Axis::X, h.n as int);
        if r > g.n {
            assert(h.rows_pairs(y, r) =~= h.rows_pairs(y, (r - 1) as nat));
        }
    }
}

/// Nodes that are connected with nothing change nothing for the others, however many there are: the
/// same pairs are active with the same records, and the gradient at the other nodes is the same.
/// Their own gradient is zero.
pub proof fn law_isolated_nodes(g: Graph, h: Graph, x: Seq<Binary32>, y: Seq<Binary32>, w: int)
    requires
        graph_valid(g),
        extended(g, h, x, y),
        0 <= w < h.n,
    ensures
        h.active_pairs(y) == g.active_pairs(x),
        h.gradients(y)[w] == if w < g.n {
            g.gradients(x)[w]
        } else {
            lit(0)
        },
        h.gradients(y)[h.n + w] == if w < g.n {
            g.gradients(x)[g.n + w]
        } else {
            lit(0)
        },
{
    lemma_same_edges(g, h, x, y, w, Axis::X, g.edges.len());
    lemma_same_rows(g, h, x, y, h.n);
    lemma_same_column(g, h, x, y, w, Axis::X, w as nat);
    lemma_same_column(g, h, x, y, w, Axis::Y, w as nat);
    lemma_same_row(g, h, x, y, w, Axis::X, h.n as int);
    lemma_same_row(g, h, x, y, w, Axis::Y, h.n as int);
    assert(lit(0).plus(lit(0)) == lit(0)) by {
        reveal(Binary32::plus);
        assert(magnitude_value(0) == 0);
    }
}

proof fn lemma_same_pair_sum(
    pairs: Seq<ActivePair>,
    a: Seq<Binary32>,
    n: nat,
    b: Seq<Binary32>,
    m: nat,
    k: nat,
)
    requires
        k <= pairs.len(),
        forall|i: int| 0 <= i < pairs.len() ==> (#[trigger] pairs[i]).u < n && pairs[i].v < n,
        forall|u: int| 0 <= u < n ==> #[trigger] b[u] == a[u],
        forall|u: int| 0 <= u < n ==> b[m + u] == #[trigger] a[n + u],
    ensures
        pair_sum(pairs, b, m, k) == pair_sum(pairs, a, n, k),
    decreases k,
{
    if k > 0 {
        lemma_same_pair_sum(pairs, a, n, b, m, (k - 1) as nat);
        let p = pairs[k - 1];
        assert(b[p.u as int] == a[p.u as int] && b[p.v as int] == a[p.v as int]);
        assert(b[m + p.u] == a[n + p.u] && b[m + p.v] == a[n + p.v]);
        assert(pair_term(p, b, m) == pair_term(p, a, n));
    }
}

proof fn lemma_same_locked_form(
    form: Binary32,
    lock_us: Seq<u32>,
    a: Seq<Binary32>,
    n: nat,
    b: Seq<Binary32>,
    m: nat,
    max_h: Binary32,
    k: nat,
)
    requires
        k <= lock_us.len(),
        forall|i: int| 0 <= i < lock_us.len() ==> #[trigger] lock_us[i] < n,
        forall|u: int| 0 <= u < n ==> #[trigger] b[u] == a[u],
        forall|u: int| 0 <= u < n ==> b[m + u] == #[trigger] a[n + u],
    ensures
        locked_form(form, lock_us, b, m, max_h, k) == locked_form(form, lock_us, a, n, max_h, k),
    decreases k,
{
    if k > 0 {
        lemma_same_locked_form(form, lock_us, a, n, b, m, max_h, (k - 1) as nat);
        let u = lock_us[k - 1] as int;
        assert(b[u] == a[u] && b[m + u] == a[n + u]);
    }
}

/// The quadratic form and the diagonal of the Hessian do not depend on how many nodes there are
/// besides those of the pairs and the soft locks.
pub proof fn law_isolated_form(
    a: Seq<Binary32>,
    n: nat,
    b: Seq<Binary32>,
    m: nat,
    pairs: Seq<ActivePair>,
    lock_us: Seq<u32>,
    max_h: Binary32,
)
    requires
        n <= m,
        forall|i: int| 0 <= i < pairs.len() ==> (#[trigger] pairs[i]).u < n && pairs[i].v < n,
        forall|i: int| 0 <= i < lock_us.len() ==> #[trigger] lock_us[i] < n,
        forall|u: int| 0 <= u < n ==> #[trigger] b[u] == a[u],
        forall|u: int| 0 <= u < n ==> b[m + u] == #[trigger] a[n + u],
    ensures
        hessian_form(b, m, pairs, lock_us, max_h) == hessian_form(a, n, pairs, lock_us, max_h),
        forall|w: int| 0 <= w < n ==> #[trigger] diagonals(pairs, m)[w] == diagonals(pairs, n)[w],
        forall|w: int|
            0 <= w < n ==> diagonals(pairs, m)[m + w] == #[trigger] diagonals(pairs, n)[n + w],
{
    lemma_same_pair_sum(pairs, a, n, b, m, pairs.len());
    lemma_same_locked_form(
        pair_sum(pairs, a, n, pairs.len()).negated(),
        lock_us,
        a,
        n,
        b,
        m,
        max_h,
        lock_us.len(),
    );
}

} // verus!
