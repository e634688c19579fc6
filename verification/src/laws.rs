//! What holds of layouts as a whole.
use crate::binary32::{lit, Binary32};
use crate::context::State;
use crate::engine::{lemma_active_pairs_in_range, pairs_in_range};
use crate::model::{
    at, dist2, edge_index, entry, pair_count, tri_index, ActivePair, Axis, Graph, LARGEST, SIX, TWO,
};
use crate::motion::{
    converged, descended, hessian_form, locked_node, locks_in_range, midway, pair_sum, pair_term,
    pinned, stepped, Drift, Lock, World,
};
use crate::rounding::magnitude_value;
use crate::topology::{graph_valid, lemma_tri_index_bound, lemma_tri_index_order};
use crate::weights::lemma_zero_never_active;
use vstd::arithmetic::power2::pow2;
use vstd::prelude::*;
use vstd::set_lib::{lemma_int_range, lemma_len_subset, set_int_range};

verus! {

/// Where an active pair stands in the packed upper triangle.
pub open spec fn place(n: nat, p: ActivePair) -> int {
    tri_index(n, p.u as int, p.v as int)
}

/// Whether the pairs come in the order of the triangle.
spec fn ordered(n: nat, pairs: Seq<ActivePair>) -> bool {
    forall|i: int, j: int|
        0 <= i < j < pairs.len() ==> place(n, #[trigger] pairs[i]) < place(n, #[trigger] pairs[j])
}

proof fn lemma_edge_pairs_ordered(g: Graph, x: Seq<Binary32>, k: nat)
    requires
        graph_valid(g),
        k <= g.edges.len(),
    ensures
        ordered(g.n, g.edge_pairs(x, k)),
        forall|i: int|
            0 <= i < g.edge_pairs(x, k).len() ==> exists|j: int|
                0 <= j < k && edge_index(g.n, #[trigger] g.edges[j]) == place(
                    g.n,
                    #[trigger] g.edge_pairs(x, k)[i],
                ),
    decreases k,
{
    if k > 0 {
        lemma_edge_pairs_ordered(g, x, (k - 1) as nat);
        let before = g.edge_pairs(x, (k - 1) as nat);
        let now = g.edge_pairs(x, k);
        let e = g.edges[k - 1];
        assert forall|i: int| 0 <= i < now.len() implies exists|j: int|
            0 <= j < k && edge_index(g.n, #[trigger] g.edges[j]) == place(
                g.n,
                #[trigger] now[i],
            ) by {
            if i < before.len() {
                assert(now[i] == before[i]);
                let j = choose|j: int|
                    0 <= j < k - 1 && edge_index(g.n, #[trigger] g.edges[j]) == place(
                        g.n,
                        before[i],
                    );
                assert(edge_index(g.n, g.edges[j]) == place(g.n, now[i]));
            } else {
                assert(edge_index(g.n, g.edges[k - 1]) == place(g.n, now[i]));
            }
        }
        if g.edge_active(x, k - 1) {
            assert forall|i: int, j: int| 0 <= i < j < now.len() implies place(
                g.n,
                #[trigger] now[i],
            ) < place(g.n, #[trigger] now[j]) by {
                if j == before.len() {
                    assert(now[i] == before[i]);
                    let m = choose|m: int|
                        0 <= m < k - 1 && edge_index(g.n, #[trigger] g.edges[m]) == place(
                            g.n,
                            before[i],
                        );
                    assert(edge_index(g.n, g.edges[m]) < edge_index(g.n, g.edges[k - 1]));
                } else {
                    assert(now[i] == before[i] && now[j] == before[j]);
                }
            }
        }
    }
}

/// Whether every pair is one of the rows before `u`, or of row `u` before the node `end`, and is
/// active there.
spec fn swept_before(
    g: Graph,
    x: Seq<Binary32>,
    pairs: Seq<ActivePair>,
    u: int,
    end: int,
) -> bool {
    forall|i: int|
        0 <= i < pairs.len() ==> {
            let p = #[trigger] pairs[i];
            &&& p.u < p.v < g.n
            &&& p.u < u || (p.u == u && p.v < end)
            &&& g.pair_active(x, p.u as int, p.v as int)
        }
}

proof fn lemma_rows_ordered(g: Graph, x: Seq<Binary32>, u: int, end: int)
    requires
        g.n < 0xffff,
        0 <= u < end <= g.n,
    ensures
        ({
            let pairs = g.rows_pairs(x, u as nat) + g.row_pairs(x, u, end);
            ordered(g.n, pairs) && swept_before(g, x, pairs, u, end)
        }),
    decreases u, end,
{
    let pairs = g.rows_pairs(x, u as nat) + g.row_pairs(x, u, end);
    if end == u + 1 {
        assert(pairs =~= g.rows_pairs(x, u as nat));
        if u > 0 {
            lemma_rows_ordered(g, x, u - 1, g.n as int);
            assert(swept_before(g, x, g.rows_pairs(x, u as nat), u - 1, g.n as int));
        }
    } else {
        lemma_rows_ordered(g, x, u, end - 1);
        let before = g.rows_pairs(x, u as nat) + g.row_pairs(x, u, end - 1);
        if g.pair_active(x, u, end - 1) {
            let p = pairs[before.len() as int];
            assert(pairs =~= before.push(p));
            assert(p.u == u && p.v == end - 1);
            assert forall|i: int, j: int| 0 <= i < j < pairs.len() implies place(
                g.n,
                #[trigger] pairs[i],
            ) < place(g.n, #[trigger] pairs[j]) by {
                assert(pairs[i] == before[i]);
                lemma_tri_index_order(
                    g.n,
                    before[i].u as int,
                    before[i].v as int,
                    u,
                    end - 1,
                );
                if j < before.len() {
                    assert(pairs[j] == before[j]);
                }
            }
            assert forall|i: int| 0 <= i < pairs.len() implies ({
                let p = #[trigger] pairs[i];
                &&& p.u < p.v < g.n
                &&& p.u < u || (p.u == u && p.v < end)
                &&& g.pair_active(x, p.u as int, p.v as int)
            }) by {
                if i < before.len() {
                    assert(pairs[i] == before[i]);
                }
            }
        } else {
            assert(pairs =~= before);
            assert(swept_before(g, x, before, u, end));
        }
    }
}

/// A sweep visits each pair once: no pair is active twice, so the active pairs are never more than
/// there are pairs of nodes.
pub proof fn law_active_pairs_distinct(g: Graph, x: Seq<Binary32>)
    requires
        graph_valid(g),
    ensures
        pairs_in_range(g.active_pairs(x), g.n),
        forall|i: int, j: int|
            0 <= i < j < g.active_pairs(x).len() ==> (#[trigger] g.active_pairs(x)[i]).u != (
            #[trigger] g.active_pairs(x)[j]).u || g.active_pairs(x)[i].v != g.active_pairs(x)[j].v,
        g.active_pairs(x).len() <= pair_count(g.n),
{
    let n = g.n;
    let pairs = g.active_pairs(x);
    let edges = g.edge_pairs(x, g.edges.len());
    let rows = g.rows_pairs(x, n);
    lemma_active_pairs_in_range(g, x);
    lemma_edge_pairs_ordered(g, x, g.edges.len());
    if n > 0 {
        lemma_rows_ordered(g, x, n - 1, n as int);
    }
    assert forall|i: int, j: int| 0 <= i < j < pairs.len() implies place(n, #[trigger] pairs[i])
        != place(n, #[trigger] pairs[j]) by {
        if i < edges.len() && j >= edges.len() {
            // A pair that is swept is no edge.
            let p = rows[j - edges.len()];
            assert(pairs[i] == edges[i] && pairs[j] == p);
            let k = choose|k: int|
                0 <= k < g.edges.len() && edge_index(n, #[trigger] g.edges[k]) == place(
                    n,
                    edges[i],
                );
            let e = g.edges[k];
            lemma_tri_index_order(n, e.u as int, e.v as int, p.u as int, p.v as int);
            lemma_zero_never_active(dist2(n, x, p.u as int, p.v as int));
        } else if i >= edges.len() {
            assert(pairs[i] == rows[i - edges.len()] && pairs[j] == rows[j - edges.len()]);
        } else {
            assert(pairs[i] == edges[i] && pairs[j] == edges[j]);
        }
    }
    let places = Seq::new(pairs.len(), |i: int| place(n, pairs[i]));
    assert(places.no_duplicates());
    places.unique_seq_to_set();
    lemma_int_range(0, pair_count(n) as int);
    assert(places.to_set().subset_of(set_int_range(0, pair_count(n) as int))) by {
        assert forall|p: int| places.to_set().contains(p) implies set_int_range(
            0,
            pair_count(n) as int,
        ).contains(p) by {
            let i = choose|i: int| 0 <= i < places.len() && places[i] == p;
            assert(pairs[i].u < pairs[i].v < n);
            lemma_tri_index_bound(n, pairs[i].u as int, pairs[i].v as int);
        }
    }
    lemma_len_subset(places.to_set(), set_int_range(0, pair_count(n) as int));
}

/// Whether a pair comes before another by its first node, and by its second where the first is the
/// same.
pub open spec fn precedes(p: ActivePair, q: ActivePair) -> bool {
    p.u < q.u || (p.u == q.u && p.v < q.v)
}

/// The active pairs come in order: first the edges, then the pairs of the triangle, and each of the
/// two groups by first and second node.
pub proof fn law_active_pairs_ordered(g: Graph, x: Seq<Binary32>)
    requires
        graph_valid(g),
    ensures
        ({
            let pairs = g.active_pairs(x);
            let m = g.edge_pairs(x, g.edges.len()).len();
            &&& m <= pairs.len()
            &&& forall|i: int|
                0 <= i < m ==> exists|k: int|
                    0 <= k < g.edges.len() && (#[trigger] g.edges[k]).u == (
                    #[trigger] pairs[i]).u && g.edges[k].v == pairs[i].v
            &&& forall|i: int|
                m <= i < pairs.len() ==> g.pair_active(
                    x,
                    (#[trigger] pairs[i]).u as int,
                    pairs[i].v as int,
                )
            &&& forall|i: int, j: int|
                0 <= i < j < m ==> precedes(#[trigger] pairs[i], #[trigger] pairs[j])
            &&& forall|i: int, j: int|
                m <= i < j < pairs.len() ==> precedes(#[trigger] pairs[i], #[trigger] pairs[j])
        }),
{
    let n = g.n;
    let pairs = g.active_pairs(x);
    let edges = g.edge_pairs(x, g.edges.len());
    let rows = g.rows_pairs(x, n);
    let m = edges.len();
    lemma_active_pairs_in_range(g, x);
    lemma_edge_pairs_ordered(g, x, g.edges.len());
    if n > 0 {
        lemma_rows_ordered(g, x, n - 1, n as int);
        assert(rows == g.rows_pairs(x, (n - 1) as nat) + g.row_pairs(x, n - 1, n as int));
    }
    assert forall|i: int| 0 <= i < m implies exists|k: int|
        0 <= k < g.edges.len() && (#[trigger] g.edges[k]).u == (#[trigger] pairs[i]).u
            && g.edges[k].v == pairs[i].v by {
        assert(pairs[i] == edges[i]);
        let k = choose|k: int|
            0 <= k < g.edges.len() && edge_index(n, #[trigger] g.edges[k]) == place(n, edges[i]);
        let e = g.edges[k];
        assert(pairs[i].u < pairs[i].v < n);
        lemma_tri_index_order(
            n,
            e.u as int,
            e.v as int,
            pairs[i].u as int,
            pairs[i].v as int,
        );
        assert(g.edges[k].u == pairs[i].u);
    }
    assert forall|i: int| m <= i < pairs.len() implies g.pair_active(
        x,
        (#[trigger] pairs[i]).u as int,
        pairs[i].v as int,
    ) by {
        assert(pairs[i] == rows[i - m]);
    }
    assert forall|i: int, j: int|
        0 <= i < j < pairs.len() && (j < m || m <= i) implies precedes(
        #[trigger] pairs[i],
        #[trigger] pairs[j],
    ) by {
        assert(pairs[i].u < pairs[i].v < n && pairs[j].u < pairs[j].v < n);
        if j < m {
            assert(pairs[i] == edges[i] && pairs[j] == edges[j]);
        } else {
            assert(pairs[i] == rows[i - m] && pairs[j] == rows[j - m]);
        }
        assert(place(n, pairs[i]) < place(n, pairs[j]));
        lemma_tri_index_order(
            n,
            pairs[i].u as int,
            pairs[i].v as int,
            pairs[j].u as int,
            pairs[j].v as int,
        );
    }
}

/// Pinning keeps the number of coordinates, puts each locked node where the last lock on it holds
/// it, and leaves the other nodes where they are.
pub proof fn law_pinned(x: Seq<Binary32>, n: nat, locks: Seq<Lock>, k: nat)
    requires
        x.len() == 2 * n,
        locks_in_range(locks, n),
        k <= locks.len(),
    ensures
        pinned(x, n, locks, k).len() == x.len(),
        forall|i: int|
            0 <= i < k && (forall|j: int|
                i < j < k ==> locked_node(#[trigger] locks[j]) != locked_node(locks[i])) ==> {
                let l = #[trigger] locks[i];
                &&& pinned(x, n, locks, k)[locked_node(l)] == l.x
                &&& pinned(x, n, locks, k)[n + locked_node(l)] == l.y
            },
        forall|w: int|
            0 <= w < n && (forall|j: int| 0 <= j < k ==> locked_node(#[trigger] locks[j]) != w) ==> {
                &&& #[trigger] pinned(x, n, locks, k)[w] == x[w]
                &&& pinned(x, n, locks, k)[n + w] == x[n + w]
            },
    decreases k,
{
    if k > 0 {
        law_pinned(x, n, locks, (k - 1) as nat);
        let before = pinned(x, n, locks, (k - 1) as nat);
        let now = pinned(x, n, locks, k);
        let last = locks[k - 1];
        assert(locked_node(last) < n);
        assert forall|i: int|
            0 <= i < k && (forall|j: int|
                i < j < k ==> locked_node(#[trigger] locks[j]) != locked_node(locks[i])) implies ({
            let l = #[trigger] locks[i];
            &&& now[locked_node(l)] == l.x
            &&& now[n + locked_node(l)] == l.y
        }) by {
            assert(locked_node(locks[i]) < n);
            if i < k - 1 {
                assert(locked_node(last) != locked_node(locks[i]));
                assert(before[locked_node(locks[i])] == locks[i].x);
            }
        }
        assert forall|w: int|
            0 <= w < n && (forall|j: int| 0 <= j < k ==> locked_node(#[trigger] locks[j]) != w)
            implies #[trigger] now[w] == x[w] && now[n + w] == x[n + w] by {
            assert(locked_node(locks[k - 1]) != w);
            assert(before[w] == x[w]);
        }
    }
}

/// At every stage of the integrator each locked node is exactly where the last lock on it holds it:
/// a descent ends there, wherever it started.
pub proof fn law_descended_keeps_locks(graph: Graph, locks: Seq<Lock>, x: Seq<Binary32>, i: int)
    requires
        locks_in_range(locks, graph.n),
        0 <= i < locks.len(),
        forall|j: int|
            i < j < locks.len() ==> locked_node(#[trigger] locks[j]) != locked_node(locks[i]),
    ensures
        descended(graph, locks, x)[locked_node(locks[i])] == locks[i].x,
        descended(graph, locks, x)[graph.n + locked_node(locks[i])] == locks[i].y,
{
    law_pinned(stepped(graph, x, x), graph.n, locks, locks.len());
}

/// After a step of the midpoint scheme or of gradient descent every locked node is exactly where the
/// last lock on it holds it.
pub proof fn law_tick_keeps_locks(w: World, x: Seq<Binary32>, draws: u64, mode: u32, i: int)
    requires
        mode != 0,
        locks_in_range(w.locks, w.graph.n),
        0 <= i < w.locks.len(),
        forall|j: int|
            i < j < w.locks.len() ==> locked_node(#[trigger] w.locks[j]) != locked_node(
                w.locks[i],
            ),
    ensures
        w.tick(x, draws, mode).x[locked_node(w.locks[i])] == w.locks[i].x,
        w.tick(x, draws, mode).x[w.graph.n + locked_node(w.locks[i])] == w.locks[i].y,
{
    let n = w.graph.n;
    let start = pinned(x, n, w.locks, w.locks.len());
    let s1 = w.settle(start, draws);
    if mode == 1 {
        let a = descended(w.graph, w.locks, s1.x);
        let s2 = w.settle(midway(s1.x, a, 2 * n), s1.draws);
        law_pinned(stepped(w.graph, s1.x, s2.x), n, w.locks, w.locks.len());
    } else {
        law_descended_keeps_locks(w.graph, w.locks, s1.x, i);
    }
}

/// The mean of the four stages of a coordinate that three of them hold at `p`, the third one being
/// at `c`.
pub open spec fn held_mean(p: Binary32, c: Binary32) -> Binary32 {
    p.plus(lit(TWO).times(p)).plus(lit(TWO).times(c)).plus(p).over(lit(SIX))
}

/// A step of the Runge-Kutta scheme leaves a locked node at the mean of its stages: three are where
/// the last lock on the node holds it, and the third is there too unless it was displaced because
/// nodes coincided. The rounded mean may differ from the locked position, to which the next step
/// puts the node back.
pub proof fn law_runge_kutta_locks(w: World, x: Seq<Binary32>, draws: u64, i: int)
    requires
        locks_in_range(w.locks, w.graph.n),
        0 <= i < w.locks.len(),
        forall|j: int|
            i < j < w.locks.len() ==> locked_node(#[trigger] w.locks[j]) != locked_node(
                w.locks[i],
            ),
    ensures
        ({
            let t = w.tick(x, draws, 0);
            let l = w.locks[i];
            let k = locked_node(l);
            let n = w.graph.n;
            &&& t.x[k] == held_mean(l.x, t.at[k])
            &&& t.x[n + k] == held_mean(l.y, t.at[n + k])
            &&& exists|from: Drift|
                {
                    let c = #[trigger] descended(w.graph, w.locks, from.x);
                    &&& t.at == w.settle(c, from.draws).x
                    &&& c[k] == l.x
                    &&& c[n + k] == l.y
                }
        }),
{
    let n = w.graph.n;
    let len = 2 * n;
    let start = pinned(x, n, w.locks, w.locks.len());
    let s1 = w.settle(start, draws);
    let a = descended(w.graph, w.locks, s1.x);
    let s2 = w.settle(midway(s1.x, a, len), s1.draws);
    let b = descended(w.graph, w.locks, s2.x);
    let s3 = w.settle(midway(s1.x, b, len), s2.draws);
    let s4 = w.settle(descended(w.graph, w.locks, s3.x), s3.draws);
    law_descended_keeps_locks(w.graph, w.locks, s1.x, i);
    law_descended_keeps_locks(w.graph, w.locks, s2.x, i);
    law_descended_keeps_locks(w.graph, w.locks, s3.x, i);
    law_descended_keeps_locks(w.graph, w.locks, s4.x, i);
    let t = w.tick(x, draws, 0);
    assert(t == w.runge_kutta(start, draws));
    assert(locked_node(w.locks[i]) < n);
    assert(t.at == w.settle(descended(w.graph, w.locks, s3.x), s3.draws).x);
}

/// The exact value of the Hessian's entry at row `a` and column `b` from the first `k` active pairs:
/// off the diagonal the entries of the pairs themselves, and on the diagonal minus the entries of
/// the pairs that hold the node.
pub open spec fn hessian_entry(
    pairs: Seq<ActivePair>,
    axis: Axis,
    a: int,
    b: int,
    k: nat,
) -> int
    decreases k,
{
    if k == 0 {
        0
    } else {
        let p = pairs[k - 1];
        hessian_entry(pairs, axis, a, b, (k - 1) as nat) + pair_entry(
            p,
            entry(p, axis).value(),
            a,
            b,
        )
    }
}

/// What a pair of weight `w` adds to the entry at row `a` and column `b`.
pub open spec fn pair_entry(p: ActivePair, w: int, a: int, b: int) -> int {
    if a == b {
        if p.u == a || p.v == a {
            -w
        } else {
            0
        }
    } else if (p.u == a && p.v == b) || (p.u == b && p.v == a) {
        w
    } else {
        0
    }
}

/// Row `a` of the Hessian times the vector `g`, over the first `m` columns.
pub open spec fn hessian_row(
    pairs: Seq<ActivePair>,
    axis: Axis,
    g: Seq<int>,
    a: int,
    m: nat,
    k: nat,
) -> int
    decreases m,
{
    if m == 0 {
        0
    } else {
        hessian_row(pairs, axis, g, a, (m - 1) as nat, k) + hessian_entry(
            pairs,
            axis,
            a,
            m - 1,
            k,
        ) * g[m - 1]
    }
}

/// The quadratic form of the Hessian of `n` nodes at the vector `g`, over the first `m` rows.
pub open spec fn quadratic_form(
    pairs: Seq<ActivePair>,
    axis: Axis,
    g: Seq<int>,
    n: nat,
    m: nat,
    k: nat,
) -> int
    decreases m,
{
    if m == 0 {
        0
    } else {
        quadratic_form(pairs, axis, g, n, (m - 1) as nat, k) + g[m - 1] * hessian_row(
            pairs,
            axis,
            g,
            m - 1,
            n,
            k,
        )
    }
}

/// The sum over the first `k` pairs of their entry times the squared difference of the vector across
/// the pair.
pub open spec fn difference_form(pairs: Seq<ActivePair>, axis: Axis, g: Seq<int>, k: nat) -> int
    decreases k,
{
    if k == 0 {
        0
    } else {
        let p = pairs[k - 1];
        let d = g[p.u as int] - g[p.v as int];
        difference_form(pairs, axis, g, (k - 1) as nat) + entry(p, axis).value() * (d * d)
    }
}

/// What the last pair adds to a row of the Hessian times the vector.
spec fn row_step(p: ActivePair, w: int, g: Seq<int>, a: int, m: nat) -> int {
    let own = if p.u == a {
        p.u as int
    } else {
        p.v as int
    };
    let other = if p.u == a {
        p.v as int
    } else {
        p.u as int
    };
    if p.u != a && p.v != a {
        0
    } else {
        (if own < m {
            -(w * g[own])
        } else {
            0
        }) + (if other < m {
            w * g[other]
        } else {
            0
        })
    }
}

proof fn lemma_row_step(pairs: Seq<ActivePair>, axis: Axis, g: Seq<int>, a: int, m: nat, k: nat)
    requires
        k > 0,
        pairs[k - 1].u < pairs[k - 1].v,
    ensures
        hessian_row(pairs, axis, g, a, m, k) == hessian_row(pairs, axis, g, a, m, (k - 1) as nat)
            + row_step(pairs[k - 1], entry(pairs[k - 1], axis).value(), g, a, m),
    decreases m,
{
    let p = pairs[k - 1];
    let w = entry(p, axis).value();
    if m > 0 {
        lemma_row_step(pairs, axis, g, a, (m - 1) as nat, k);
        let h = hessian_entry(pairs, axis, a, m - 1, (k - 1) as nat);
        let e = pair_entry(p, w, a, m - 1);
        let x = g[m - 1];
        assert((h + e) * x == h * x + e * x) by (nonlinear_arith);
        assert((-w) * x == -(w * x)) by (nonlinear_arith);
        assert(0 * x == 0);
    }
}

proof fn lemma_form_step(
    pairs: Seq<ActivePair>,
    axis: Axis,
    g: Seq<int>,
    n: nat,
    m: nat,
    k: nat,
)
    requires
        k > 0,
        pairs[k - 1].u < pairs[k - 1].v < n,
        m <= n,
    ensures
        ({
            let p = pairs[k - 1];
            let w = entry(p, axis).value();
            let gu = g[p.u as int];
            let gv = g[p.v as int];
            quadratic_form(pairs, axis, g, n, m, k) == quadratic_form(
                pairs,
                axis,
                g,
                n,
                m,
                (k - 1) as nat,
            ) + (if p.u < m {
                gu * (w * gv - w * gu)
            } else {
                0
            }) + (if p.v < m {
                gv * (w * gu - w * gv)
            } else {
                0
            })
        }),
    decreases m,
{
    if m > 0 {
        lemma_form_step(pairs, axis, g, n, (m - 1) as nat, k);
        lemma_row_step(pairs, axis, g, m - 1, n, k);
        let p = pairs[k - 1];
        let w = entry(p, axis).value();
        let x = g[m - 1];
        let r = hessian_row(pairs, axis, g, m - 1, n, (k - 1) as nat);
        let s = row_step(p, w, g, m - 1, n);
        assert(x * (r + s) == x * r + x * s) by (nonlinear_arith);
        assert(x * 0 == 0);
    }
}

/// The Hessian has the structure of a weighted Laplacian, so in exact arithmetic its quadratic form
/// is minus the sum over the active pairs of their entry times the squared difference across the
/// pair. The step size needs that sum alone; the matrix is never built.
pub proof fn law_hessian_form(pairs: Seq<ActivePair>, axis: Axis, g: Seq<int>, n: nat, k: nat)
    requires
        pairs_in_range(pairs, n),
        k <= pairs.len(),
    ensures
        quadratic_form(pairs, axis, g, n, n, k) == -difference_form(pairs, axis, g, k),
    decreases k,
{
    if k == 0 {
        lemma_form_zero(pairs, axis, g, n, n);
    } else {
        law_hessian_form(pairs, axis, g, n, (k - 1) as nat);
        let p = pairs[k - 1];
        assert(p.u < p.v < n);
        lemma_form_step(pairs, axis, g, n, n, k);
        let w = entry(p, axis).value();
        let gu = g[p.u as int];
        let gv = g[p.v as int];
        let d = gu - gv;
        assert(gu * (w * gv - w * gu) + gv * (w * gu - w * gv) == -(w * (d * d)))
            by (nonlinear_arith)
            requires
                d == gu - gv,
        ;
    }
}

proof fn lemma_row_zero(pairs: Seq<ActivePair>, axis: Axis, g: Seq<int>, a: int, m: nat)
    ensures
        hessian_row(pairs, axis, g, a, m, 0) == 0,
    decreases m,
{
    if m > 0 {
        lemma_row_zero(pairs, axis, g, a, (m - 1) as nat);
        assert(0 * g[m - 1] == 0);
    }
}

proof fn lemma_form_zero(pairs: Seq<ActivePair>, axis: Axis, g: Seq<int>, n: nat, m: nat)
    ensures
        quadratic_form(pairs, axis, g, n, m, 0) == 0,
    decreases m,
{
    if m > 0 {
        lemma_form_zero(pairs, axis, g, n, (m - 1) as nat);
        lemma_row_zero(pairs, axis, g, m - 1, n);
        assert(g[m - 1] * 0 == 0);
    }
}

/// Whether the term of a pair in the quadratic form is computed without rounding.
pub open spec fn term_exact(p: ActivePair, g: Seq<Binary32>, n: nat) -> bool {
    let dgx = g[p.u as int].minus(g[p.v as int]).value();
    let dgy = g[n + p.u].minus(g[n + p.v]).value();
    &&& dgx == g[p.u as int].value() - g[p.v as int].value()
    &&& dgy == g[n + p.u].value() - g[n + p.v].value()
    &&& pair_term(p, g, n).value() * pow2(298) == p.idk_x.value() * (dgx * dgx) + p.idk_y.value()
        * (dgy * dgy)
}

/// Whether the sum over the first `k` pairs is computed without rounding.
pub open spec fn sum_exact(pairs: Seq<ActivePair>, g: Seq<Binary32>, n: nat, k: nat) -> bool
    decreases k,
{
    k == 0 || {
        let before = (k - 1) as nat;
        &&& sum_exact(pairs, g, n, before)
        &&& term_exact(pairs[k - 1], g, n)
        &&& pair_sum(pairs, g, n, k).value() == pair_sum(pairs, g, n, before).value() + pair_term(
            pairs[k - 1],
            g,
            n,
        ).value()
    }
}

/// The exact values of the gradient along an axis.
pub open spec fn values(g: Seq<Binary32>, n: nat, axis: Axis) -> Seq<int> {
    Seq::new(n, |i: int| g[at(n, i, axis)].value())
}

proof fn lemma_sum_exact(pairs: Seq<ActivePair>, g: Seq<Binary32>, n: nat, k: nat)
    requires
        pairs_in_range(pairs, n),
        k <= pairs.len(),
        sum_exact(pairs, g, n, k),
    ensures
        pair_sum(pairs, g, n, k).value() * pow2(298) == difference_form(
            pairs,
            Axis::X,
            values(g, n, Axis::X),
            k,
        ) + difference_form(pairs, Axis::Y, values(g, n, Axis::Y), k),
    decreases k,
{
    if k == 0 {
        assert(magnitude_value(0) == 0);
        assert(lit(0).value() == 0);
        assert(0 * pow2(298) == 0);
    } else {
        lemma_sum_exact(pairs, g, n, (k - 1) as nat);
        let p = pairs[k - 1];
        assert(p.u < p.v < n);
        let a = pair_sum(pairs, g, n, (k - 1) as nat).value();
        let b = pair_term(p, g, n).value();
        assert((a + b) * pow2(298) == a * pow2(298) + b * pow2(298)) by (nonlinear_arith);
        assert(values(g, n, Axis::X)[p.u as int] == g[p.u as int].value());
        assert(values(g, n, Axis::Y)[p.u as int] == g[n + p.u].value());
    }
}

proof fn lemma_negated_value(a: Binary32)
    ensures
        a.negated().value() == -a.value(),
{
}

/// Where no operation rounds, the denominator of the step size is the quadratic form of the Hessian
/// at the gradient, horizontal and vertical part together. The scale is that of a product of three
/// numbers, each an integer multiple of the least one.
pub proof fn law_step_denominator(
    g: Seq<Binary32>,
    n: nat,
    pairs: Seq<ActivePair>,
    max_h: Binary32,
)
    requires
        pairs_in_range(pairs, n),
        sum_exact(pairs, g, n, pairs.len()),
    ensures
        hessian_form(g, n, pairs, Seq::empty(), max_h).value() * pow2(298) == quadratic_form(
            pairs,
            Axis::X,
            values(g, n, Axis::X),
            n,
            n,
            pairs.len(),
        ) + quadratic_form(pairs, Axis::Y, values(g, n, Axis::Y), n, n, pairs.len()),
{
    let k = pairs.len();
    let sum = pair_sum(pairs, g, n, k);
    let form = hessian_form(g, n, pairs, Seq::empty(), max_h);
    assert(form == sum.negated());
    lemma_negated_value(sum);
    lemma_sum_exact(pairs, g, n, k);
    law_hessian_form(pairs, Axis::X, values(g, n, Axis::X), n, k);
    law_hessian_form(pairs, Axis::Y, values(g, n, Axis::Y), n, k);
    assert(form.value() * pow2(298) == -(sum.value() * pow2(298))) by (nonlinear_arith)
        requires
            form.value() == -sum.value(),
    ;
}

/// A threshold that is not above zero never ends a run.
proof fn lemma_never_converged(before: Binary32, now: Binary32, threshold: Binary32)
    requires
        !lit(0).less(threshold),
    ensures
        !converged(before, now, threshold),
{
}

proof fn lemma_runs_chain(
    w: World,
    x: Seq<Binary32>,
    draws: u64,
    mode: u32,
    threshold: Binary32,
    stress: Binary32,
    a: nat,
    b: nat,
)
    requires
        a > 0,
        b > 0,
        !lit(0).less(threshold),
    ensures
        ({
            let t = w.run(x, draws, mode, threshold, stress, a);
            w.run(x, draws, mode, threshold, stress, a + b) == w.run(
                t.x,
                t.draws,
                mode,
                threshold,
                t.disp,
                b,
            )
        }),
    decreases a,
{
    let t = w.tick(x, draws, mode);
    lemma_never_converged(stress, t.disp, threshold);
    if a > 1 {
        lemma_runs_chain(w, t.x, t.draws, mode, threshold, t.disp, (a - 1) as nat, b);
    }
}

/// Without a threshold above zero, runs add up: a run of `a` steps and a second run of `b` steps
/// leave the state, and give the movement, of one run of `a + b` steps.
pub proof fn law_runs_add_up(s: State, mode: u32, threshold: Binary32, a: nat, b: nat)
    requires
        a > 0,
        b > 0,
        !lit(0).less(threshold),
    ensures
        ({
            let start = lit(LARGEST);
            let first = s.world().run(s.x, s.draws, mode, threshold, start, a);
            let middle = s.after(first);
            let second = middle.world().run(middle.x, middle.draws, mode, threshold, start, b);
            let whole = s.world().run(s.x, s.draws, mode, threshold, start, a + b);
            &&& s.after(whole) == middle.after(second)
            &&& whole.disp == second.disp
        }),
{
    let start = lit(LARGEST);
    let w = s.world();
    let first = w.run(s.x, s.draws, mode, threshold, start, a);
    lemma_runs_chain(w, s.x, s.draws, mode, threshold, start, a, b);
    // Where a run cannot converge it does not depend on the movement that it starts from.
    let t = w.tick(first.x, first.draws, mode);
    lemma_never_converged(start, t.disp, threshold);
    lemma_never_converged(first.disp, t.disp, threshold);
    let middle = s.after(first);
    let second = middle.world().run(middle.x, middle.draws, mode, threshold, start, b);
    assert(middle.world() == w);
    assert(s.after(second) =~= middle.after(second));
}

} // verus!
