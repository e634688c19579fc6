//! Which pairs are edges and which are active, told from the inputs themselves: the matrices of
//! distances and weights, and the positions. Further, what lists of locks and extremes hold.
use crate::api::locks_of;
use crate::binary32::{law_order_of_values, lit, size, Binary32};
use crate::laws::law_tick_keeps_locks;
use crate::model::{
    adjacent, displacement_length, dist2, graph_of, is_distance, pair_of, peak, tri_index,
    weighted, ActivePair, Edge, Graph,
};
use crate::motion::{locked_node, locks_in_range, World};
use crate::rounding::magnitude_value;
use crate::topology::{graph_valid, law_triangle_entry, lemma_tri_index_bound};
use crate::weights::{
    covers, law_empty_weights_restore, law_ideal_distances, law_weighted_activity,
    law_weights_keep_ideals, lemma_ideals_valid, lemma_zero_never_active,
};
use vstd::arithmetic::div_mod::lemma_fundamental_div_mod;
use vstd::arithmetic::power2::{lemma_pow2_pos, pow2};
use vstd::prelude::*;

verus! {

/// Whether an entry of a distance matrix connects a pair: it is a finite number above zero.
pub open spec fn connects(e: Binary32) -> bool {
    e.finite() && lit(0).less(e)
}

/// Whether a weight makes a connected pair an edge: it is a number that is at most one.
pub open spec fn light(w: Binary32) -> bool {
    w.at_most(lit(0x3f80_0000))
}

/// Whether the graph has an edge between two nodes.
pub open spec fn has_edge(g: Graph, u: int, v: int) -> bool {
    exists|k: int| 0 <= k < g.edges.len() && (#[trigger] g.edges[k]).u == u && g.edges[k].v == v
}

/// Setting weights, told from the ideal distances: for every pair of nodes with a distance, there is
/// an edge between the two if and only if their weight is at most one, with that distance; and the
/// pair is swept with its distance if and only if it is no edge.
pub proof fn law_edges_by_weight(g: Graph, weights: Seq<Binary32>, u: int, v: int)
    requires
        graph_valid(g),
        weights.len() > 0,
        0 <= u < v < g.n,
    ensures
        ({
            let h = weighted(g, weights);
            let s = g.ideals()[tri_index(g.n, u, v)];
            let w = weights[u * g.n + v];
            &&& h.n == g.n && h.p_stress
            &&& has_edge(h, u, v) == (connects(s) && w.at_most(lit(0x3f80_0000)))
            &&& h.swept(u, v) == if connects(s) && !w.at_most(lit(0x3f80_0000)) {
                s
            } else {
                lit(0)
            }
            &&& forall|k: int|
                0 <= k < h.edges.len() && (#[trigger] h.edges[k]).u == u && h.edges[k].v == v
                    ==> h.edges[k].ideal == s
        }),
{
    let h = weighted(g, weights);
    let s = g.ideals()[tri_index(g.n, u, v)];
    law_weights_keep_ideals(g, weights);
    law_weighted_activity(g, weights, Seq::empty(), u, v);
    law_ideal_distances(h, u, v);
    lemma_ideals_valid(g, g.edges.len());
    lemma_tri_index_bound(g.n, u, v);
    assert(s == lit(0) || connects(s));
    if adjacent(g.ideals(), weights, g.n, u, v) {
        let e = Edge { u: u as u32, v: v as u32, ideal: s };
        let k = choose|k: int| 0 <= k < h.edges.len() && h.edges[k] == e;
        assert(h.edges[k].u == u && h.edges[k].v == v);
        assert(h.swept(h.edges[k].u as int, h.edges[k].v as int) == lit(0));
    }
}

/// The pairs of a layout, told from the matrices: without weights every connected pair is swept with
/// its distance and there are no edges; with weights the connected pairs of weight at most one are
/// the edges and the other connected pairs are swept.
pub proof fn law_pairs_by_matrix(
    d: Seq<Binary32>,
    n: nat,
    weights: Seq<Binary32>,
    u: int,
    v: int,
)
    requires
        n < 0xffff,
        0 <= u < v < n,
    ensures
        ({
            let h = weighted(graph_of(d, n), weights);
            let e = d[u * n + v];
            let edge = connects(e) && weights.len() > 0 && light(weights[u * n + v]);
            &&& graph_valid(h) && h.n == n
            &&& h.p_stress == (weights.len() > 0)
            &&& has_edge(h, u, v) == edge
            &&& h.swept(u, v) == if connects(e) && !edge {
                e
            } else {
                lit(0)
            }
            &&& h.ideals()[tri_index(n, u, v)] == if connects(e) {
                e
            } else {
                lit(0)
            }
            &&& forall|k: int|
                0 <= k < h.edges.len() && (#[trigger] h.edges[k]).u == u && h.edges[k].v == v
                    ==> h.edges[k].ideal == e
        }),
{
    let g = graph_of(d, n);
    law_empty_weights_restore(d, n, weights);
    law_weights_keep_ideals(g, weights);
    law_triangle_entry(d, n, u, v);
    law_ideal_distances(g, u, v);
    if weights.len() > 0 {
        law_edges_by_weight(g, weights, u, v);
        law_ideal_distances(weighted(g, weights), u, v);
        let h = weighted(g, weights);
        if has_edge(h, u, v) {
            let k = choose|k: int|
                0 <= k < h.edges.len() && (#[trigger] h.edges[k]).u == u && h.edges[k].v == v;
            assert(h.edges[k].ideal == h.ideals()[tri_index(n, u, v)]);
        }
    } else {
        assert(weighted(g, weights).edges.len() == 0);
        assert(weighted(g, weights) == g);
    }
}

/// A matrix of weights covers a graph if and only if it has an entry for every connected pair.
pub proof fn law_covers(d: Seq<Binary32>, n: nat, weights: Seq<Binary32>)
    requires
        n < 0xffff,
    ensures
        covers(graph_of(d, n), weights) == forall|u: int, v: int|
            0 <= u < v < n && connects(#[trigger] d[u * n + v]) ==> u * n + v < weights.len(),
{
    let g = graph_of(d, n);
    let none = Seq::<Binary32>::empty();
    assert forall|u: int, v: int| 0 <= u < v < n implies connects(#[trigger] d[u * n + v])
        == lit(0).less(g.ideals()[tri_index(n, u, v)]) by {
        law_pairs_by_matrix(d, n, none, u, v);
        law_empty_weights_restore(d, n, none);
    }
    if covers(g, weights) {
        assert forall|u: int, v: int|
            0 <= u < v < n && connects(#[trigger] d[u * n + v]) implies u * n + v
            < weights.len() by {
            assert(lit(0).less(g.ideals()[tri_index(g.n, u, v)]));
        }
    } else {
        let (u, v) = choose|u: int, v: int|
            0 <= u < v < g.n && lit(0).less(#[trigger] g.ideals()[tri_index(g.n, u, v)]) && !(u
                * g.n + v < weights.len());
        assert(connects(d[u * n + v]));
    }
}

/// Whether a pair of nodes is among active pairs.
pub open spec fn listed(pairs: Seq<ActivePair>, u: int, v: int) -> bool {
    exists|i: int| 0 <= i < pairs.len() && (#[trigger] pairs[i]).u == u && pairs[i].v == v
}

proof fn lemma_listed_push(pairs: Seq<ActivePair>, p: ActivePair, u: int, v: int)
    ensures
        listed(pairs.push(p), u, v) == (listed(pairs, u, v) || (p.u == u && p.v == v)),
{
    let now = pairs.push(p);
    if listed(pairs, u, v) {
        let i = choose|i: int| 0 <= i < pairs.len() && (#[trigger] pairs[i]).u == u && pairs[i].v == v;
        assert(now[i] == pairs[i]);
    }
    if p.u == u && p.v == v {
        assert(now[pairs.len() as int] == p);
    }
    if listed(now, u, v) {
        let i = choose|i: int| 0 <= i < now.len() && (#[trigger] now[i]).u == u && now[i].v == v;
        if i < pairs.len() {
            assert(pairs[i] == now[i]);
        }
    }
}

proof fn lemma_listed_concat(a: Seq<ActivePair>, b: Seq<ActivePair>, u: int, v: int)
    ensures
        listed(a + b, u, v) == (listed(a, u, v) || listed(b, u, v)),
    decreases b.len(),
{
    if b.len() == 0 {
        assert(a + b =~= a);
    } else {
        lemma_listed_concat(a, b.drop_last(), u, v);
        lemma_listed_push(b.drop_last(), b.last(), u, v);
        lemma_listed_push(a + b.drop_last(), b.last(), u, v);
        assert(b.drop_last().push(b.last()) =~= b);
        assert((a + b.drop_last()).push(b.last()) =~= a + b);
    }
}

/// Whether every record between two nodes is that of their distance.
spec fn records_of(
    n: nat,
    x: Seq<Binary32>,
    pairs: Seq<ActivePair>,
    u: int,
    v: int,
    s: Binary32,
) -> bool {
    forall|i: int|
        0 <= i < pairs.len() && (#[trigger] pairs[i]).u == u && pairs[i].v == v ==> pairs[i]
            == pair_of(n, x, u, v, s)
}

proof fn lemma_edges_listed(g: Graph, x: Seq<Binary32>, u: int, v: int, k: nat)
    requires
        graph_valid(g),
        0 <= u < v < g.n,
        k <= g.edges.len(),
    ensures
        listed(g.edge_pairs(x, k), u, v) == exists|i: int|
            0 <= i < k && (#[trigger] g.edges[i]).u == u && g.edges[i].v == v && g.edge_active(x, i),
        records_of(g.n, x, g.edge_pairs(x, k), u, v, g.ideals()[tri_index(g.n, u, v)]),
    decreases k,
{
    if k > 0 {
        let m = (k - 1) as nat;
        lemma_edges_listed(g, x, u, v, m);
        law_ideal_distances(g, u, v);
        let e = g.edges[k - 1];
        let before = g.edge_pairs(x, m);
        let now = g.edge_pairs(x, k);
        if g.edge_active(x, k - 1) {
            let p = now.last();
            assert(now =~= before.push(p));
            assert(p.u == e.u && p.v == e.v);
            lemma_listed_push(before, p, u, v);
            assert forall|i: int|
                0 <= i < now.len() && (#[trigger] now[i]).u == u && now[i].v == v implies now[i]
                == pair_of(g.n, x, u, v, g.ideals()[tri_index(g.n, u, v)]) by {
                if i < before.len() {
                    assert(now[i] == before[i]);
                } else {
                    assert(now[i] == p);
                }
            }
        }
        if exists|i: int|
            0 <= i < k && (#[trigger] g.edges[i]).u == u && g.edges[i].v == v && g.edge_active(
                x,
                i,
            ) {
            let i = choose|i: int|
                0 <= i < k && (#[trigger] g.edges[i]).u == u && g.edges[i].v == v
                    && g.edge_active(x, i);
            if i < m {
                assert(g.edges[i].u == u);
            }
        }
    }
}

proof fn lemma_row_listed(g: Graph, x: Seq<Binary32>, u: int, v: int, r: int, end: int)
    requires
        graph_valid(g),
        0 <= u < v < g.n,
        0 <= r < end <= g.n,
    ensures
        listed(g.row_pairs(x, r, end), u, v) == (r == u && v < end && g.pair_active(x, u, v)),
        records_of(g.n, x, g.row_pairs(x, r, end), u, v, g.swept(u, v)),
    decreases end - r,
{
    if end > r + 1 {
        lemma_row_listed(g, x, u, v, r, end - 1);
        let before = g.row_pairs(x, r, end - 1);
        let now = g.row_pairs(x, r, end);
        if g.pair_active(x, r, end - 1) {
            let p = now.last();
            assert(now =~= before.push(p));
            assert(p.u == r && p.v == end - 1);
            lemma_listed_push(before, p, u, v);
            assert forall|i: int|
                0 <= i < now.len() && (#[trigger] now[i]).u == u && now[i].v == v implies now[i]
                == pair_of(g.n, x, u, v, g.swept(u, v)) by {
                if i < before.len() {
                    assert(now[i] == before[i]);
                } else {
                    assert(now[i] == p);
                }
            }
        }
    }
}

proof fn lemma_records_concat(
    n: nat,
    x: Seq<Binary32>,
    a: Seq<ActivePair>,
    b: Seq<ActivePair>,
    u: int,
    v: int,
    s: Binary32,
)
    requires
        records_of(n, x, a, u, v, s),
        records_of(n, x, b, u, v, s),
    ensures
        records_of(n, x, a + b, u, v, s),
{
    let now = a + b;
    assert forall|i: int|
        0 <= i < now.len() && (#[trigger] now[i]).u == u && now[i].v == v implies now[i]
        == pair_of(n, x, u, v, s) by {
        if i < a.len() {
            assert(now[i] == a[i]);
        } else {
            assert(now[i] == b[i - a.len()]);
        }
    }
}

proof fn lemma_rows_listed(g: Graph, x: Seq<Binary32>, u: int, v: int, r: nat)
    requires
        graph_valid(g),
        0 <= u < v < g.n,
        r <= g.n,
    ensures
        listed(g.rows_pairs(x, r), u, v) == (u < r && g.pair_active(x, u, v)),
        records_of(g.n, x, g.rows_pairs(x, r), u, v, g.swept(u, v)),
    decreases r,
{
    if r > 0 {
        let m = (r - 1) as nat;
        lemma_rows_listed(g, x, u, v, m);
        lemma_row_listed(g, x, u, v, r - 1, g.n as int);
        lemma_listed_concat(g.rows_pairs(x, m), g.row_pairs(x, r - 1, g.n as int), u, v);
        lemma_records_concat(
            g.n,
            x,
            g.rows_pairs(x, m),
            g.row_pairs(x, r - 1, g.n as int),
            u,
            v,
            g.swept(u, v),
        );
    }
}

/// The active pairs of any graph: a pair is active if and only if it is an edge whose ends do not
/// coincide, or it is swept, is closer than its distance where weights are set, and does not
/// coincide. Its record is the one of this pair with its distance, for any number of nodes.
pub proof fn law_active_of_graph(g: Graph, x: Seq<Binary32>, u: int, v: int)
    requires
        graph_valid(g),
        0 <= u < v < g.n,
    ensures
        ({
            let pairs = g.active_pairs(x);
            let d2 = dist2(g.n, x, u, v);
            let s = g.swept(u, v);
            let eps = lit(0x2193_92ee);
            &&& listed(pairs, u, v) == ((has_edge(g, u, v) && !d2.at_most(eps)) || (connects(s) && (
            g.p_stress ==> d2.less(s.times(s))) && eps.less(d2)))
            &&& forall|i: int|
                0 <= i < pairs.len() && (#[trigger] pairs[i]).u == u && pairs[i].v == v
                    ==> pairs[i] == pair_of(g.n, x, u, v, g.ideals()[tri_index(g.n, u, v)])
        }),
{
    let n = g.n;
    let s = g.ideals()[tri_index(n, u, v)];
    let edges = g.edge_pairs(x, g.edges.len());
    let rows = g.rows_pairs(x, n);
    lemma_edges_listed(g, x, u, v, g.edges.len());
    lemma_rows_listed(g, x, u, v, n);
    lemma_listed_concat(edges, rows, u, v);
    lemma_zero_never_active(dist2(n, x, u, v));
    law_ideal_distances(g, u, v);
    lemma_tri_index_bound(n, u, v);
    assert(g.swept(u, v) == lit(0) || connects(g.swept(u, v)));
    if has_edge(g, u, v) {
        let k = choose|k: int|
            0 <= k < g.edges.len() && (#[trigger] g.edges[k]).u == u && g.edges[k].v == v;
        assert(g.edges[k].u == u);
        assert(g.swept(g.edges[k].u as int, g.edges[k].v as int) == lit(0));
        assert(g.edge_active(x, k) == !dist2(n, x, u, v).at_most(lit(0x2193_92ee)));
    }
    assert forall|i: int|
        0 <= i < g.active_pairs(x).len() && (#[trigger] g.active_pairs(x)[i]).u == u
            && g.active_pairs(x)[i].v == v implies g.active_pairs(x)[i] == pair_of(n, x, u, v, s) by {
        if i < edges.len() {
            let p = edges[i];
            assert(g.active_pairs(x)[i] == p);
            assert(listed(edges, u, v));
        } else {
            let p = rows[i - edges.len()];
            assert(g.active_pairs(x)[i] == p);
            assert(listed(rows, u, v));
        }
    }
}

/// The active pairs, told from the inputs. Without weights a pair is active if and only if it is
/// connected and does not coincide. With weights it is so if and only if it is connected, does not
/// coincide, and has weight at most one or is closer than its distance. Its record is the one of
/// this pair with its distance, for any number of nodes.
pub proof fn law_active_by_matrix(
    d: Seq<Binary32>,
    n: nat,
    weights: Seq<Binary32>,
    x: Seq<Binary32>,
    u: int,
    v: int,
)
    requires
        n < 0xffff,
        0 <= u < v < n,
    ensures
        ({
            let pairs = weighted(graph_of(d, n), weights).active_pairs(x);
            let e = d[u * n + v];
            let d2 = dist2(n, x, u, v);
            let eps = lit(0x2193_92ee);
            &&& listed(pairs, u, v) == (connects(e) && if weights.len() == 0 {
                eps.less(d2)
            } else if light(weights[u * n + v]) {
                !d2.at_most(eps)
            } else {
                d2.less(e.times(e)) && eps.less(d2)
            })
            &&& forall|i: int|
                0 <= i < pairs.len() && (#[trigger] pairs[i]).u == u && pairs[i].v == v
                    ==> pairs[i] == pair_of(n, x, u, v, e)
        }),
{
    law_pairs_by_matrix(d, n, weights, u, v);
    law_active_of_graph(weighted(graph_of(d, n), weights), x, u, v);
}

/// A flat list of locks holds one lock for each whole triple, in order: the node, the horizontal and
/// the vertical position.
pub proof fn law_flat_locks(flat: Seq<Binary32>)
    ensures
        locks_of(flat).len() * 3 <= flat.len() < locks_of(flat).len() * 3 + 3,
        forall|k: int|
            0 <= k && 3 * k + 2 < flat.len() ==> {
                let l = #[trigger] locks_of(flat)[k];
                l.node == flat[3 * k] && l.x == flat[3 * k + 1] && l.y == flat[3 * k + 2]
            },
{
}

/// The locks of a flat list are in range if and only if every whole triple names a node.
pub proof fn law_flat_locks_in_range(flat: Seq<Binary32>, n: nat)
    ensures
        locks_in_range(locks_of(flat), n) == forall|i: int|
            0 <= i && 3 * i + 2 < flat.len() ==> (#[trigger] flat[3 * i]).whole() < n,
{
    let locks = locks_of(flat);
    if locks_in_range(locks, n) {
        assert forall|i: int| 0 <= i && 3 * i + 2 < flat.len() implies (#[trigger] flat[3
            * i]).whole() < n by {
            assert(locked_node(locks[i]) < n);
        }
    }
    if forall|i: int|
        0 <= i && 3 * i + 2 < flat.len() ==> (#[trigger] flat[3 * i]).whole() < n {
        assert forall|i: int| 0 <= i < locks.len() implies locked_node(#[trigger] locks[i])
            < n by {
            assert(locks[i].node == flat[3 * i]);
        }
    }
}

/// After a step of the midpoint scheme or of gradient descent, every node that some whole triple of a
/// flat list names is at the position of the last triple that names it.
pub proof fn law_flat_locks_hold(
    w: World,
    flat: Seq<Binary32>,
    x: Seq<Binary32>,
    draws: u64,
    mode: u32,
    k: int,
)
    requires
        mode != 0,
        w.locks == locks_of(flat),
        0 <= k,
        3 * k + 2 < flat.len(),
        forall|i: int| 0 <= i && 3 * i + 2 < flat.len() ==> (#[trigger] flat[3 * i]).whole() < w.graph.n,
        forall|i: int|
            k < i && 3 * i + 2 < flat.len() ==> (#[trigger] flat[3 * i]).whole() != flat[3
                * k].whole(),
    ensures
        ({
            let node = flat[3 * k].whole() as int;
            let t = w.tick(x, draws, mode);
            t.x[node] == flat[3 * k + 1] && t.x[w.graph.n + node] == flat[3 * k + 2]
        }),
{
    let locks = w.locks;
    law_flat_locks(flat);
    assert forall|i: int| 0 <= i < locks.len() implies locked_node(#[trigger] locks[i]) < w.graph.n by {
        assert(locks[i].node == flat[3 * i]);
    }
    assert forall|i: int| k < i < locks.len() implies locked_node(#[trigger] locks[i])
        != locked_node(locks[k]) by {
        assert(locks[i].node == flat[3 * i]);
    }
    law_tick_keeps_locks(w, x, draws, mode, k);
}

/// The integer part of a number is the greatest integer that is not above it, up to what 32 bits
/// hold; numbers below zero have the integer part zero.
pub proof fn law_whole(a: Binary32)
    ensures
        a.finite() && 0 <= a.value() < 0xffff_ffff * pow2(149) ==> a.whole() * pow2(149) <= a.value()
            < (a.whole() + 1) * pow2(149),
        a.finite() && a.value() < 0 ==> a.whole() == 0,
        a.nan() ==> a.whole() == 0,
        a.finite() && a.value() >= 0xffff_ffff * pow2(149) ==> a.whole() == u32::MAX,
{
    lemma_pow2_pos(149);
    let p = pow2(149) as int;
    if a.finite() && !a.negative() {
        lemma_fundamental_div_mod(a.value(), p);
        let q = a.value() / p;
        assert(q * p <= a.value() < (q + 1) * p) by (nonlinear_arith)
            requires
                a.value() == p * q + a.value() % p,
                0 <= a.value() % p < p,
        ;
        assert((a.value() < 0xffff_ffff * p) == (q < 0xffff_ffff)) by (nonlinear_arith)
            requires
                q * p <= a.value() < (q + 1) * p,
                p > 0,
        ;
        assert(size(a.value()) == a.value());
    } else if a.finite() {
        assert(a.value() <= 0);
        if a.value() == 0 {
            assert(a.whole() == 0);
            assert(0 * p == 0 && 1 * p == p);
        }
        assert(0xffff_ffff * p > 0) by (nonlinear_arith)
            requires
                p > 0,
        ;
    }
}

/// The greatest entry is none below any finite entry, nor below zero, and it is zero or an entry.
pub proof fn law_peak(entries: Seq<Binary32>, m: Binary32)
    requires
        peak(entries, m),
        m.finite(),
    ensures
        m.value() >= 0,
        m == lit(0) || entries.contains(m),
        forall|i: int|
            0 <= i < entries.len() && (#[trigger] entries[i]).finite() ==> entries[i].value()
                <= m.value(),
        forall|i: int| 0 <= i < entries.len() ==> #[trigger] entries[i] != lit(0x7f80_0000),
{
    assert(magnitude_value(0) == 0);
    law_order_of_values(lit(0), m);
    assert forall|i: int| 0 <= i < entries.len() && (#[trigger] entries[i]).finite() implies
        entries[i].value() <= m.value() by {
        law_order_of_values(m, entries[i]);
    }
    assert forall|i: int| 0 <= i < entries.len() implies #[trigger] entries[i] != lit(
        0x7f80_0000,
    ) by {
        assert(!m.less(entries[i]));
    }
}

/// The length of displacements is the least distance of the matrix, wherever it has a distance below
/// the largest finite number, and one where it has none.
pub proof fn law_displacement_length(d: Seq<Binary32>, m: Binary32, i: int)
    requires
        displacement_length(d, m),
        0 <= i < d.len(),
        connects(d[i]),
        d[i] != lit(0x7f7f_ffff),
    ensures
        m.finite(),
        0 < m.value() <= d[i].value(),
        d.contains(m),
{
    assert(magnitude_value(0) == 0);
    assert(is_distance(d[i]));
    law_order_of_values(lit(0), m);
    law_order_of_values(d[i], m);
}

/// Without a distance below the largest finite number, displacements have length one.
pub proof fn law_displacement_default(d: Seq<Binary32>, m: Binary32)
    requires
        displacement_length(d, m),
        forall|i: int| 0 <= i < d.len() && connects(#[trigger] d[i]) ==> d[i] == lit(0x7f7f_ffff),
    ensures
        m == lit(0x3f80_0000),
{
    if m != lit(0x3f80_0000) {
        let i = choose|i: int| 0 <= i < d.len() && d[i] == m;
        assert(connects(d[i]));
    }
}

} // verus!
