//! The weights of the pairs, which tell the edges from the pairs that are swept.
use crate::binary32::{lit, size, Binary32};
use crate::model::{
    adjacent, dist2, edge_index, edge_list, graph_of, is_distance, pair_count, row_edges, row_start,
    tri_index, weighted, with_edges, without_edges, Edge, Graph, DISP_EPS_SQ,
};
use crate::rounding::{lemma_round_at_most, magnitude_value};
use crate::sampling::ONE;
use crate::topology::{
    graph_valid, law_triangle_entry, lemma_matrix_index, lemma_tri_index_bound,
    lemma_tri_index_order, lemma_triangle_len, Topology,
};
use vstd::arithmetic::power2::{lemma_pow2_pos, pow2};
use vstd::prelude::*;

verus! {

/// Whether the edges are pairs of `n` nodes.
spec fn edges_in_range(n: nat, edges: Seq<Edge>) -> bool {
    forall|k: int|
        0 <= k < edges.len() ==> (#[trigger] edges[k]).u < edges[k].v && edges[k].v < n
}

/// Putting edges in and taking them out keeps the length of a triangle.
proof fn lemma_edges_len(tri: Seq<Binary32>, n: nat, edges: Seq<Edge>, k: nat)
    requires
        tri.len() == pair_count(n),
        k <= edges.len(),
        edges_in_range(n, edges),
    ensures
        with_edges(tri, n, edges, k).len() == tri.len(),
        without_edges(tri, n, edges, k).len() == tri.len(),
    decreases k,
{
    if k > 0 {
        lemma_edges_len(tri, n, edges, (k - 1) as nat);
        let e = edges[k - 1];
        lemma_tri_index_bound(n, e.u as int, e.v as int);
    }
}

/// What stands at a place of the triangle after edges were taken out: zero at the place of an edge,
/// and what stood there before elsewhere.
proof fn lemma_without_edges(tri: Seq<Binary32>, n: nat, edges: Seq<Edge>, k: nat, i: int)
    requires
        tri.len() == pair_count(n),
        k <= edges.len(),
        edges_in_range(n, edges),
        0 <= i < tri.len(),
    ensures
        without_edges(tri, n, edges, k)[i] == if exists|j: int|
            0 <= j < k && edge_index(n, #[trigger] edges[j]) == i {
            lit(0)
        } else {
            tri[i]
        },
    decreases k,
{
    if k > 0 {
        lemma_without_edges(tri, n, edges, (k - 1) as nat, i);
        lemma_edges_len(tri, n, edges, (k - 1) as nat);
        let e = edges[k - 1];
        lemma_tri_index_bound(n, e.u as int, e.v as int);
        if edge_index(n, e) == i {
            assert(0 <= k - 1 < k && edge_index(n, edges[k - 1]) == i);
        }
    }
}

/// What stands at a place of the triangle after edges were put in: with `full` as the ideal
/// distances, the place holds its ideal distance if it did before or if it is the place of an edge.
proof fn lemma_with_edges(
    tri: Seq<Binary32>,
    full: Seq<Binary32>,
    n: nat,
    edges: Seq<Edge>,
    k: nat,
    i: int,
)
    requires
        tri.len() == pair_count(n),
        full.len() == pair_count(n),
        k <= edges.len(),
        edges_in_range(n, edges),
        forall|j: int|
            0 <= j < edges.len() ==> (#[trigger] edges[j]).ideal == full[edge_index(n, edges[j])],
        0 <= i < tri.len(),
    ensures
        with_edges(tri, n, edges, k)[i] == if exists|j: int|
            0 <= j < k && edge_index(n, #[trigger] edges[j]) == i {
            full[i]
        } else {
            tri[i]
        },
    decreases k,
{
    if k > 0 {
        lemma_with_edges(tri, full, n, edges, (k - 1) as nat, i);
        lemma_edges_len(tri, n, edges, (k - 1) as nat);
        let e = edges[k - 1];
        lemma_tri_index_bound(n, e.u as int, e.v as int);
        if edge_index(n, e) == i {
            assert(0 <= k - 1 < k && edge_index(n, edges[k - 1]) == i);
        }
    }
}

/// The ideal distances of a valid graph are zero or distances.
pub proof fn lemma_ideals_valid(g: Graph, k: nat)
    requires
        graph_valid(g),
        k <= g.edges.len(),
    ensures
        with_edges(g.tri, g.n, g.edges, k).len() == pair_count(g.n),
        forall|i: int|
            0 <= i < pair_count(g.n) ==> {
                let d = #[trigger] with_edges(g.tri, g.n, g.edges, k)[i];
                d == lit(0) || is_distance(d)
            },
    decreases k,
{
    lemma_edges_len(g.tri, g.n, g.edges, k);
    if k > 0 {
        lemma_ideals_valid(g, (k - 1) as nat);
        let e = g.edges[k - 1];
        lemma_tri_index_bound(g.n, e.u as int, e.v as int);
        lemma_edges_len(g.tri, g.n, g.edges, (k - 1) as nat);
    }
}

/// Whether the edges are adjacent pairs before the place `limit` of the triangle, in its order, with
/// their ideal distances.
spec fn edges_from(full: Seq<Binary32>, n: nat, edges: Seq<Edge>, limit: int) -> bool {
    &&& edges_in_range(n, edges)
    &&& forall|k: int|
        0 <= k < edges.len() ==> {
            let e = #[trigger] edges[k];
            &&& e.ideal == full[edge_index(n, e)]
            &&& is_distance(e.ideal)
            &&& edge_index(n, e) < limit
        }
    &&& forall|j: int, k: int|
        0 <= j < k < edges.len() ==> edge_index(n, #[trigger] edges[j]) < edge_index(
            n,
            #[trigger] edges[k],
        )
}

/// A graph whose edges were taken out of the triangle of ideal distances is valid and keeps the
/// ideal distances.
proof fn lemma_thinned(full: Seq<Binary32>, n: nat, edges: Seq<Edge>)
    requires
        n < 0xffff,
        full.len() == pair_count(n),
        forall|i: int|
            0 <= i < full.len() ==> #[trigger] full[i] == lit(0) || is_distance(full[i]),
        edges_from(full, n, edges, pair_count(n) as int),
    ensures
        ({
            let g = Graph {
                n,
                tri: without_edges(full, n, edges, edges.len()),
                edges,
                p_stress: true,
            };
            graph_valid(g) && g.ideals() == full
        }),
{
    let tri = without_edges(full, n, edges, edges.len());
    let g = Graph { n, tri, edges, p_stress: true };
    lemma_edges_len(full, n, edges, edges.len());
    lemma_edges_len(tri, n, edges, edges.len());
    assert forall|i: int| 0 <= i < tri.len() implies #[trigger] tri[i] == lit(0) || is_distance(
        tri[i],
    ) by {
        lemma_without_edges(full, n, edges, edges.len(), i);
        assert(full[i] == lit(0) || is_distance(full[i]));
    }
    assert forall|k: int| 0 <= k < edges.len() implies g.swept(
        (#[trigger] edges[k]).u as int,
        edges[k].v as int,
    ) == lit(0) by {
        let e = edges[k];
        lemma_tri_index_bound(n, e.u as int, e.v as int);
        lemma_without_edges(full, n, edges, edges.len(), edge_index(n, e));
    }
    assert(g.ideals() =~= full) by {
        assert forall|i: int| 0 <= i < full.len() implies g.ideals()[i] == full[i] by {
            lemma_without_edges(full, n, edges, edges.len(), i);
            lemma_with_edges(tri, full, n, edges, edges.len(), i);
        }
    }
}

/// What a weight matrix must cover: the pairs that are connected.
pub open spec fn covers(g: Graph, weights: Seq<Binary32>) -> bool {
    forall|u: int, v: int|
        0 <= u < v < g.n && lit(0).less(#[trigger] g.ideals()[tri_index(g.n, u, v)]) ==> u * g.n + v
            < weights.len()
}

impl Topology {
    /// Sets the weights. A non-empty matrix turns p-stress mode on: the connected pairs with weight
    /// at most one become the edges, and the others are swept with the condition that they are
    /// closer than their ideal distance. An empty matrix turns it off, and everything that is
    /// connected is active.
    pub fn set_g(&mut self, g_mat: &Vec<Binary32>)
        requires
            old(self).wf(),
            g_mat.len() == 0 || covers(old(self)@, g_mat@),
        ensures
            final(self).wf(),
            final(self)@ == weighted(old(self)@, g_mat@),
            final(self)@.ideals() == old(self)@.ideals(),
    {
        let n: usize = self.n;
        let ghost before = self@;
        let ghost full = before.ideals();
        let mut k: usize = 0;
        while k < self.edges.len()
            invariant
                graph_valid(before),
                before.n == n,
                self.n == n,
                self.edges@ == before.edges,
                self.row_off.len() == n,
                forall|u: int|
                    0 <= u < n ==> #[trigger] self.row_off[u] == row_start(n as nat, u as nat),
                k <= self.edges.len(),
                self.tri@ == with_edges(before.tri, n as nat, before.edges, k as nat),
            decreases self.edges.len() - k,
        {
            let e: Edge = self.edges[k];
            assert(e == before.edges[k as int]);
            let u: usize = e.u as usize;
            let v: usize = e.v as usize;
            proof {
                lemma_edges_len(before.tri, n as nat, before.edges, k as nat);
                lemma_tri_index_bound(n as nat, u as int, v as int);
                assert(self.tri.len() == pair_count(n as nat));
            }
            let i: usize = self.row_off[u] + (v - u - 1);
            self.tri.set(i, e.ideal);
            k = k + 1;
        }
        assert(self.tri@ == full);
        proof {
            lemma_ideals_valid(before, before.edges.len());
        }
        self.edges.clear();
        assert(self.edges@ =~= Seq::<Edge>::empty());
        if g_mat.len() == 0 {
            self.p_stress = false;
            assert(self@.ideals() == self@.tri);
            return;
        }
        let zero: Binary32 = Binary32::from_bits(0);
        let one: Binary32 = Binary32::from_bits(ONE);
        let ghost weights = g_mat@;
        let mut u: usize = 0;
        while u < n
            invariant
                u <= n < 0xffff,
                self.n == n,
                self.row_off.len() == n,
                forall|r: int|
                    0 <= r < n ==> #[trigger] self.row_off[r] == row_start(n as nat, r as nat),
                weights == g_mat@,
                covers(before, weights),
                full == before.ideals(),
                before.n == n,
                full.len() == pair_count(n as nat),
                forall|i: int|
                    0 <= i < full.len() ==> #[trigger] full[i] == lit(0) || is_distance(full[i]),
                zero == lit(0),
                one == lit(ONE),
                self.edges@ == edge_list(full, weights, n as nat, u as nat),
                edges_from(full, n as nat, self.edges@, row_start(n as nat, u as nat) as int),
                self.tri@ == without_edges(full, n as nat, self.edges@, self.edges@.len()),
            decreases n - u,
        {
            let base: usize = self.row_off[u];
            let mut v: usize = u + 1;
            assert(self.edges@ =~= edge_list(full, weights, n as nat, u as nat) + row_edges(
                full,
                weights,
                n as nat,
                u as int,
                v as int,
            ));
            while v < n
                invariant
                    u < v <= n < 0xffff,
                    self.n == n,
                    self.row_off.len() == n,
                    forall|r: int|
                        0 <= r < n ==> #[trigger] self.row_off[r] == row_start(n as nat, r as nat),
                    base == row_start(n as nat, u as nat),
                    weights == g_mat@,
                    covers(before, weights),
                    full == before.ideals(),
                    before.n == n,
                    full.len() == pair_count(n as nat),
                    forall|i: int|
                        0 <= i < full.len() ==> #[trigger] full[i] == lit(0) || is_distance(
                            full[i],
                        ),
                    zero == lit(0),
                    one == lit(ONE),
                    self.edges@ == edge_list(full, weights, n as nat, u as nat) + row_edges(
                        full,
                        weights,
                        n as nat,
                        u as int,
                        v as int,
                    ),
                    edges_from(full, n as nat, self.edges@, tri_index(n as nat, u as int, v as int)),
                    self.tri@ == without_edges(full, n as nat, self.edges@, self.edges@.len()),
                decreases n - v,
            {
                let ghost edges = self.edges@;
                let ghost place = tri_index(n as nat, u as int, v as int);
                proof {
                    lemma_tri_index_bound(n as nat, u as int, v as int);
                    lemma_edges_len(full, n as nat, edges, edges.len());
                    assert(self.tri.len() == pair_count(n as nat));
                    lemma_without_edges(full, n as nat, edges, edges.len(), place);
                    lemma_matrix_index(n as nat, u as int, v as int);
                }
                let i: usize = base + (v - u - 1);
                let ideal: Binary32 = self.tri[i];
                assert(ideal == full[place]);
                if zero.lt(ideal) && g_mat[u * n + v].le(one) {
                    let e: Edge = Edge { u: u as u32, v: v as u32, ideal };
                    self.edges.push(e);
                    self.tri.set(i, zero);
                    proof {
                        assert(self.edges@ == edges.push(e));
                        assert(full[place] == lit(0) || is_distance(full[place]));
                        lemma_without_edges_prefix(
                            full,
                            n as nat,
                            edges,
                            self.edges@,
                            edges.len(),
                        );
                        assert(self.edges@[edges.len() as int] == e);
                    }
                }
                assert(self.edges@ =~= edge_list(full, weights, n as nat, u as nat) + row_edges(
                    full,
                    weights,
                    n as nat,
                    u as int,
                    v + 1,
                ));
                v = v + 1;
            }
            u = u + 1;
        }
        self.p_stress = true;
        proof {
            lemma_thinned(full, n as nat, self.edges@);
        }
    }
}

/// Taking edges out depends on the edges that are taken out alone.
proof fn lemma_without_edges_prefix(
    tri: Seq<Binary32>,
    n: nat,
    a: Seq<Edge>,
    b: Seq<Edge>,
    k: nat,
)
    requires
        k <= a.len(),
        k <= b.len(),
        forall|i: int| 0 <= i < k ==> a[i] == b[i],
    ensures
        without_edges(tri, n, a, k) == without_edges(tri, n, b, k),
    decreases k,
{
    if k > 0 {
        lemma_without_edges_prefix(tri, n, a, b, (k - 1) as nat);
    }
}

/// A place of the triangle changes only where an edge is put in, and an edge that was put in stays.
proof fn lemma_edge_ideal(g: Graph, k: nat, i: int)
    requires
        graph_valid(g),
        k <= g.edges.len(),
        0 <= i < g.tri.len(),
    ensures
        (forall|j: int| 0 <= j < k ==> edge_index(g.n, #[trigger] g.edges[j]) != i) ==> with_edges(
            g.tri,
            g.n,
            g.edges,
            k,
        )[i] == g.tri[i],
        forall|j: int|
            0 <= j < k && edge_index(g.n, #[trigger] g.edges[j]) == i ==> with_edges(
                g.tri,
                g.n,
                g.edges,
                k,
            )[i] == g.edges[j].ideal,
    decreases k,
{
    if k > 0 {
        lemma_edge_ideal(g, (k - 1) as nat, i);
        lemma_ideals_valid(g, (k - 1) as nat);
        let e = g.edges[k - 1];
        lemma_tri_index_bound(g.n, e.u as int, e.v as int);
        assert forall|j: int|
            0 <= j < k && edge_index(g.n, #[trigger] g.edges[j]) == i implies with_edges(
            g.tri,
            g.n,
            g.edges,
            k,
        )[i] == g.edges[j].ideal by {
            if j < k - 1 {
                assert(edge_index(g.n, g.edges[j]) < edge_index(g.n, g.edges[k - 1]));
            }
        }
    }
}

/// The ideal distance of a pair is that of the edge it is, and else the one it is swept with.
pub proof fn law_ideal_distances(g: Graph, u: int, v: int)
    requires
        graph_valid(g),
        0 <= u < v < g.n,
    ensures
        forall|k: int|
            0 <= k < g.edges.len() && (#[trigger] g.edges[k]).u == u && g.edges[k].v == v
                ==> g.ideals()[tri_index(g.n, u, v)] == g.edges[k].ideal,
        (forall|k: int|
            0 <= k < g.edges.len() ==> (#[trigger] g.edges[k]).u != u || g.edges[k].v != v)
            ==> g.ideals()[tri_index(g.n, u, v)] == g.swept(u, v),
{
    let i = tri_index(g.n, u, v);
    lemma_tri_index_bound(g.n, u, v);
    lemma_edge_ideal(g, g.edges.len(), i);
    assert forall|k: int| 0 <= k < g.edges.len() implies (edge_index(g.n, #[trigger] g.edges[k])
        == i) == (g.edges[k].u == u && g.edges[k].v == v) by {
        lemma_tri_index_order(g.n, g.edges[k].u as int, g.edges[k].v as int, u, v);
    }
}

impl Topology {
    /// Whether weights reach as far as the connected pairs do.
    pub fn covered_by(&self, g_mat: &Vec<Binary32>) -> (r: bool)
        requires
            self.wf(),
        ensures
            r == covers(self@, g_mat@),
    {
        let n: usize = self.n;
        let zero: Binary32 = Binary32::from_bits(0);
        let ghost graph = self@;
        let ghost weights = g_mat@;
        let mut k: usize = 0;
        while k < self.edges.len()
            invariant
                self.wf(),
                n == self.n,
                graph == self@,
                weights == g_mat@,
                k <= self.edges.len(),
                forall|j: int|
                    0 <= j < k ==> (#[trigger] graph.edges[j]).u * n + graph.edges[j].v
                        < weights.len(),
            decreases self.edges.len() - k,
        {
            let e: Edge = self.edges[k];
            assert(e == graph.edges[k as int]);
            proof {
                lemma_matrix_index(n as nat, e.u as int, e.v as int);
            }
            if e.u as usize * n + e.v as usize >= g_mat.len() {
                proof {
                    law_ideal_distances(graph, e.u as int, e.v as int);
                    assert(lit(0).less(graph.ideals()[tri_index(graph.n, e.u as int, e.v as int)]));
                }
                return false;
            }
            k = k + 1;
        }
        let mut u: usize = 0;
        while u < n
            invariant
                self.wf(),
                n == self.n,
                graph == self@,
                weights == g_mat@,
                zero == lit(0),
                u <= n,
                forall|a: int, b: int|
                    0 <= a < u && a < b < n && lit(0).less(#[trigger] graph.swept(a, b)) ==> a * n + b
                        < weights.len(),
            decreases n - u,
        {
            let base: usize = self.row_off[u];
            let mut v: usize = u + 1;
            while v < n
                invariant
                    self.wf(),
                    n == self.n,
                    graph == self@,
                    weights == g_mat@,
                    zero == lit(0),
                    u < v <= n,
                    base == row_start(n as nat, u as nat),
                    forall|b: int|
                        u < b < v && lit(0).less(#[trigger] graph.swept(u as int, b)) ==> u * n + b
                            < weights.len(),
                decreases n - v,
            {
                proof {
                    lemma_tri_index_bound(n as nat, u as int, v as int);
                    lemma_matrix_index(n as nat, u as int, v as int);
                    assert(self.tri.len() == pair_count(n as nat));
                }
                let s: Binary32 = self.tri[base + (v - u - 1)];
                assert(s == graph.swept(u as int, v as int));
                if zero.lt(s) && u * n + v >= g_mat.len() {
                    proof {
                        law_ideal_distances(graph, u as int, v as int);
                        assert(lit(0).less(graph.ideals()[tri_index(graph.n, u as int, v as int)]));
                    }
                    return false;
                }
                v = v + 1;
            }
            u = u + 1;
        }
        assert forall|a: int, b: int|
            0 <= a < b < graph.n && lit(0).less(
                #[trigger] graph.ideals()[tri_index(graph.n, a, b)],
            ) implies a * graph.n + b < weights.len() by {
            law_ideal_distances(graph, a, b);
            if lit(0).less(graph.swept(a, b)) {
            } else {
                let j = choose|j: int|
                    0 <= j < graph.edges.len() && (#[trigger] graph.edges[j]).u == a
                        && graph.edges[j].v == b;
                assert(graph.edges[j].u * n + graph.edges[j].v < weights.len());
            }
        }
        true
    }
}

/// The edges of the first rows come in the order of the triangle, with their ideal distances, and
/// they are exactly the adjacent pairs.
proof fn lemma_edge_list(
    full: Seq<Binary32>,
    weights: Seq<Binary32>,
    n: nat,
    u: int,
    end: int,
)
    requires
        n < 0xffff,
        full.len() == pair_count(n),
        forall|i: int|
            0 <= i < full.len() ==> #[trigger] full[i] == lit(0) || is_distance(full[i]),
        0 <= u < end <= n,
    ensures
        ({
            let edges = edge_list(full, weights, n, u as nat) + row_edges(
                full,
                weights,
                n,
                u,
                end,
            );
            &&& edges_from(full, n, edges, tri_index(n, u, end))
            &&& forall|k: int|
                0 <= k < edges.len() ==> adjacent(
                    full,
                    weights,
                    n,
                    (#[trigger] edges[k]).u as int,
                    edges[k].v as int,
                )
            &&& forall|a: int, b: int|
                0 <= a < b < n && (a < u || (a == u && b < end)) && #[trigger] adjacent(
                    full,
                    weights,
                    n,
                    a,
                    b,
                ) ==> edges.contains(
                    Edge { u: a as u32, v: b as u32, ideal: full[tri_index(n, a, b)] },
                )
        }),
    decreases u, end,
{
    let edges = edge_list(full, weights, n, u as nat) + row_edges(full, weights, n, u, end);
    if end == u + 1 {
        assert(edges =~= edge_list(full, weights, n, u as nat));
        if u > 0 {
            lemma_edge_list(full, weights, n, u - 1, n as int);
            assert(tri_index(n, u - 1, n as int) == tri_index(n, u, u + 1));
        }
    } else {
        lemma_edge_list(full, weights, n, u, end - 1);
        let before = edge_list(full, weights, n, u as nat) + row_edges(
            full,
            weights,
            n,
            u,
            end - 1,
        );
        lemma_tri_index_bound(n, u, end - 1);
        assert(full[tri_index(n, u, end - 1)] == lit(0) || is_distance(
            full[tri_index(n, u, end - 1)],
        ));
        if adjacent(full, weights, n, u, end - 1) {
            let e = Edge {
                u: u as u32,
                v: (end - 1) as u32,
                ideal: full[tri_index(n, u, end - 1)],
            };
            assert(edges =~= before.push(e));
            assert(edges[before.len() as int] == e);
            assert forall|a: int, b: int|
                0 <= a < b < n && (a < u || (a == u && b < end)) && #[trigger] adjacent(
                    full,
                    weights,
                    n,
                    a,
                    b,
                ) implies edges.contains(
                Edge { u: a as u32, v: b as u32, ideal: full[tri_index(n, a, b)] },
            ) by {
                let w = Edge { u: a as u32, v: b as u32, ideal: full[tri_index(n, a, b)] };
                if a < u || b < end - 1 {
                    assert(before.contains(w));
                    let j = choose|j: int| 0 <= j < before.len() && before[j] == w;
                    assert(edges[j] == w);
                }
            }
        } else {
            assert(edges =~= before);
        }
    }
}

/// The edge list of all rows, as [`lemma_edge_list`] describes it.
proof fn lemma_all_edges(full: Seq<Binary32>, weights: Seq<Binary32>, n: nat)
    requires
        n < 0xffff,
        full.len() == pair_count(n),
        forall|i: int|
            0 <= i < full.len() ==> #[trigger] full[i] == lit(0) || is_distance(full[i]),
    ensures
        ({
            let edges = edge_list(full, weights, n, n);
            &&& edges_from(full, n, edges, pair_count(n) as int)
            &&& forall|k: int|
                0 <= k < edges.len() ==> adjacent(
                    full,
                    weights,
                    n,
                    (#[trigger] edges[k]).u as int,
                    edges[k].v as int,
                )
            &&& forall|a: int, b: int|
                0 <= a < b < n && #[trigger] adjacent(full, weights, n, a, b) ==> edges.contains(
                    Edge { u: a as u32, v: b as u32, ideal: full[tri_index(n, a, b)] },
                )
        }),
{
    if n > 0 {
        lemma_edge_list(full, weights, n, n - 1, n as int);
        assert(tri_index(n, n - 1, n as int) == pair_count(n));
    }
}

/// Setting weights keeps a graph valid and keeps the ideal distance of every pair.
pub proof fn law_weights_keep_ideals(g: Graph, weights: Seq<Binary32>)
    requires
        graph_valid(g),
    ensures
        graph_valid(weighted(g, weights)),
        weighted(g, weights).ideals() == g.ideals(),
{
    lemma_ideals_valid(g, g.edges.len());
    if weights.len() == 0 {
        assert(weighted(g, weights).ideals() == weighted(g, weights).tri);
    } else {
        lemma_all_edges(g.ideals(), weights, g.n);
        lemma_thinned(g.ideals(), g.n, edge_list(g.ideals(), weights, g.n, g.n));
    }
}

/// Weights replace the weights before them: nothing of the earlier ones is left.
pub proof fn law_weights_replace(g: Graph, first: Seq<Binary32>, second: Seq<Binary32>)
    requires
        graph_valid(g),
    ensures
        weighted(weighted(g, first), second) == weighted(g, second),
{
    law_weights_keep_ideals(g, first);
}

/// Empty weights restore the graph as it was before any weights were set.
pub proof fn law_empty_weights_restore(d: Seq<Binary32>, n: nat, weights: Seq<Binary32>)
    requires
        n < 0xffff,
    ensures
        graph_valid(graph_of(d, n)),
        weighted(weighted(graph_of(d, n), weights), Seq::empty()) == graph_of(d, n),
{
    lemma_triangle_len(d, n, n);
    let g = graph_of(d, n);
    assert(g.ideals() == g.tri);
    law_weights_replace(g, weights, Seq::empty());
}

/// Before weights are set, exactly the connected pairs are active whose nodes do not coincide.
pub proof fn law_unweighted_activity(
    d: Seq<Binary32>,
    n: nat,
    x: Seq<Binary32>,
    u: int,
    v: int,
)
    requires
        0 <= u < v < n,
    ensures
        graph_of(d, n).pair_active(x, u, v) == (is_distance(d[u * n + v]) && lit(
            DISP_EPS_SQ,
        ).less(dist2(n, x, u, v))),
{
    law_triangle_entry(d, n, u, v);
}

/// No distance is below the square of zero and above the square of the coincidence limit.
pub proof fn lemma_zero_never_active(d2: Binary32)
    ensures
        !(d2.less(lit(0).times(lit(0))) && lit(DISP_EPS_SQ).less(d2)),
{
    assert(lit(0).times(lit(0)).rank() == 0) by {
        reveal(Binary32::times);
        lemma_pow2_pos(149);
        let z = size(lit(0).value());
        assert(z == 0);
        assert(z * z == 0) by (nonlinear_arith)
            requires
                z == 0,
        ;
        assert(magnitude_value(0) == 0);
        lemma_round_at_most(0, pow2(149), 0);
    }
}

/// With weights, an adjacent pair is an edge and is not swept; every other pair is swept, and it is
/// active exactly where it is connected, closer than its ideal distance, and does not coincide.
pub proof fn law_weighted_activity(
    g: Graph,
    weights: Seq<Binary32>,
    x: Seq<Binary32>,
    u: int,
    v: int,
)
    requires
        graph_valid(g),
        weights.len() > 0,
        0 <= u < v < g.n,
    ensures
        ({
            let h = weighted(g, weights);
            let s = g.ideals()[tri_index(g.n, u, v)];
            let d2 = dist2(g.n, x, u, v);
            if adjacent(g.ideals(), weights, g.n, u, v) {
                &&& h.edges.contains(Edge { u: u as u32, v: v as u32, ideal: s })
                &&& !h.pair_active(x, u, v)
            } else {
                &&& forall|k: int|
                    0 <= k < h.edges.len() ==> (#[trigger] h.edges[k]).u != u || h.edges[k].v != v
                &&& h.pair_active(x, u, v) == (is_distance(s) && d2.less(s.times(s)) && lit(
                    DISP_EPS_SQ,
                ).less(d2))
            }
        }),
{
    let h = weighted(g, weights);
    let full = g.ideals();
    let i = tri_index(g.n, u, v);
    lemma_tri_index_bound(g.n, u, v);
    lemma_ideals_valid(g, g.edges.len());
    lemma_all_edges(full, weights, g.n);
    law_weights_keep_ideals(g, weights);
    lemma_without_edges(full, g.n, h.edges, h.edges.len(), i);
    lemma_zero_never_active(dist2(g.n, x, u, v));
    assert(full[i] == lit(0) || is_distance(full[i]));
    assert forall|k: int| 0 <= k < h.edges.len() implies (edge_index(g.n, #[trigger] h.edges[k])
        == i) == (h.edges[k].u == u && h.edges[k].v == v) by {
        lemma_tri_index_order(g.n, h.edges[k].u as int, h.edges[k].v as int, u, v);
    }
    if adjacent(full, weights, g.n, u, v) {
        let e = Edge { u: u as u32, v: v as u32, ideal: full[i] };
        assert(h.edges.contains(e));
        let k = choose|k: int| 0 <= k < h.edges.len() && h.edges[k] == e;
        assert(edge_index(g.n, h.edges[k]) == i);
    }
}

} // verus!
