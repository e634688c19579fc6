//! The sweep over all pairs of nodes: gradient, active pairs and diagonal of the Hessian.
use crate::binary32::{lit, Binary32};
use crate::model::{
    diagonal, diagonals, dist2, force, least_dist2, pair_count, pair_of, row_start, ActivePair,
    Axis, Edge, Graph, DISP_EPS_SQ, FOUR, INFINITY, TWO,
};
use crate::sampling::ONE;
use crate::topology::{lemma_tri_index_bound, Field, Topology};
use vstd::prelude::*;

verus! {

impl Graph {
    /// The gradient at `w` when the rows before `u` are done and row `u` up to the node `end`, with
    /// the sum over row `u` not yet added.
    spec fn partial(self, x: Seq<Binary32>, w: int, axis: Axis, u: int, end: int) -> Binary32 {
        if w < u {
            self.gradient(x, w, axis)
        } else if w == u || w >= end {
            self.column_gradient(x, w, axis, u as nat)
        } else {
            self.column_gradient(x, w, axis, (u + 1) as nat)
        }
    }
}

/// The diagonal depends on the pairs that it counts alone.
proof fn lemma_diagonal_prefix(a: Seq<ActivePair>, b: Seq<ActivePair>, w: int, axis: Axis, k: nat)
    requires
        k <= a.len(),
        k <= b.len(),
        forall|i: int| 0 <= i < k ==> a[i] == b[i],
    ensures
        diagonal(a, w, axis, k) == diagonal(b, w, axis, k),
    decreases k,
{
    if k > 0 {
        lemma_diagonal_prefix(a, b, w, axis, (k - 1) as nat);
    }
}

/// Whether `huu` holds the diagonal of the Hessian for the pairs.
spec fn holds_diagonal(huu: Seq<Binary32>, pairs: Seq<ActivePair>, n: nat) -> bool {
    &&& huu.len() == 2 * n
    &&& forall|w: int|
        #![trigger huu[w]]
        #![trigger huu[n + w]]
        0 <= w < n ==> huu[w] == diagonal(pairs, w, Axis::X, pairs.len()) && huu[n + w] == diagonal(
            pairs,
            w,
            Axis::Y,
            pairs.len(),
        )
}

/// Records the pair of `u` and `v` as active and gives its part of the gradient at `u`; the
/// opposite part is applied at `v`.
fn process_active(
    n: usize,
    x: &Vec<Binary32>,
    u: usize,
    v: usize,
    s: Binary32,
    track_huu: bool,
    field: &mut Field,
) -> (r: (Binary32, Binary32))
    requires
        u < v < n < 0xffff,
        2 * n <= x.len(),
        old(field).shaped(n as nat),
        track_huu ==> holds_diagonal(old(field).huu@, old(field).active@, n as nat),
    ensures
        r.0 == force(n as nat, x@, u as int, v as int, s, Axis::X),
        r.1 == force(n as nat, x@, u as int, v as int, s, Axis::Y),
        final(field).g@ == old(field).g@.update(v as int, old(field).g@[v as int].minus(r.0)).update(
            n + v,
            old(field).g@[n + v].minus(r.1),
        ),
        final(field).active@ == old(field).active@.push(
            pair_of(n as nat, x@, u as int, v as int, s),
        ),
        track_huu ==> holds_diagonal(final(field).huu@, final(field).active@, n as nat),
        !track_huu ==> final(field).huu@ == old(field).huu@,
        final(field).shaped(n as nat),
{
    let one: Binary32 = Binary32::from_bits(ONE);
    let two: Binary32 = Binary32::from_bits(TWO);
    let dx: Binary32 = x[u] - x[v];
    let dy: Binary32 = x[n + u] - x[n + v];
    let d2: Binary32 = dx * dx + dy * dy;
    let d: Binary32 = d2.sqrt();
    let rid2: Binary32 = one / (s * s);
    let r: Binary32 = one / d;
    let gs: Binary32 = two * (d - s) * rid2 * r;
    let gxc: Binary32 = dx * gs;
    let gyc: Binary32 = dy * gs;
    let gx: Binary32 = field.g[v] - gxc;
    let gy: Binary32 = field.g[n + v] - gyc;
    field.g.set(v, gx);
    field.g.set(n + v, gy);
    let r3: Binary32 = r * r * r;
    let c: Binary32 = two * rid2 * s * r3;
    let f4: Binary32 = Binary32::from_bits(FOUR) * rid2;
    let idk_x: Binary32 = c * dy * dy - f4;
    let idk_y: Binary32 = c * dx * dx - f4;
    let ghost pairs = field.active@;
    let ghost before = field.huu@;
    let pair: ActivePair = ActivePair { u: u as u16, v: v as u16, idk_x, idk_y };
    field.active.push(pair);
    if track_huu {
        let hxu: Binary32 = field.huu[u] - idk_x;
        field.huu.set(u, hxu);
        let hxv: Binary32 = field.huu[v] - idk_x;
        field.huu.set(v, hxv);
        let hyu: Binary32 = field.huu[n + u] - idk_y;
        field.huu.set(n + u, hyu);
        let hyv: Binary32 = field.huu[n + v] - idk_y;
        field.huu.set(n + v, hyv);
        proof {
            let now = pairs.push(pair);
            assert forall|w: int|
                #![trigger field.huu@[w]]
                #![trigger field.huu@[n + w]]
                0 <= w < n implies field.huu@[w] == diagonal(now, w, Axis::X, now.len())
                && field.huu@[n + w] == diagonal(now, w, Axis::Y, now.len()) by {
                lemma_diagonal_prefix(pairs, now, w, Axis::X, pairs.len());
                lemma_diagonal_prefix(pairs, now, w, Axis::Y, pairs.len());
                assert(before[w] == diagonal(pairs, w, Axis::X, pairs.len()));
                assert(now[now.len() - 1] == pair);
            }
        }
    }
    (gxc, gyc)
}

/// Overwrites all entries with zero.
fn clear(v: &mut Vec<Binary32>)
    ensures
        final(v).len() == old(v).len(),
        forall|i: int| 0 <= i < final(v).len() ==> #[trigger] final(v)[i] == lit(0),
{
    let mut i: usize = 0;
    while i < v.len()
        invariant
            i <= v.len(),
            v.len() == old(v).len(),
            forall|j: int| 0 <= j < i ==> #[trigger] v[j] == lit(0),
        decreases v.len() - i,
    {
        v.set(i, Binary32::from_bits(0));
        i = i + 1;
    }
}

/// Whether `g` holds the gradient when the rows before `u` are done and row `u` up to the node
/// `end`.
spec fn holds_gradient(
    graph: Graph,
    x: Seq<Binary32>,
    g: Seq<Binary32>,
    u: int,
    end: int,
) -> bool {
    &&& g.len() == 2 * graph.n
    &&& forall|w: int|
        #![trigger g[w]]
        #![trigger g[graph.n + w]]
        0 <= w < graph.n ==> g[w] == graph.partial(x, w, Axis::X, u, end) && g[graph.n + w]
            == graph.partial(x, w, Axis::Y, u, end)
}

/// Whether `m` is the squared distance of two nodes or infinity, and no squared distance of the
/// rows before `u`, nor of row `u` up to the node `end`, is less.
spec fn least_so_far(n: nat, x: Seq<Binary32>, m: Binary32, u: int, end: int) -> bool {
    &&& !m.nan()
    &&& m == lit(INFINITY) || exists|a: int, b: int|
        0 <= a < b < n && m == #[trigger] dist2(n, x, a, b)
    &&& forall|a: int, b: int|
        0 <= a < b < n && (a < u || (a == u && b < end)) ==> !(#[trigger] dist2(n, x, a, b)).less(m)
}

impl Topology {
    /// Sweeps all pairs: collects the gradient, the active pairs and, where asked for, the diagonal
    /// of the Hessian. Gives the least squared distance of two nodes, by which coincident nodes are
    /// detected.
    pub fn sweep(&self, x: &Vec<Binary32>, track_huu: bool, field: &mut Field) -> (min_d2: Binary32)
        requires
            self.wf(),
            2 * self.n <= x.len(),
            old(field).shaped(self.n as nat),
        ensures
            final(field).shaped(self.n as nat),
            final(field).g@ == self@.gradients(x@),
            final(field).active@ == self@.active_pairs(x@),
            track_huu ==> final(field).huu@ == diagonals(self@.active_pairs(x@), self.n as nat),
            !track_huu ==> final(field).huu@ == old(field).huu@,
            least_dist2(self.n as nat, x@, min_d2),
    {
        let n: usize = self.n;
        let eps: Binary32 = Binary32::from_bits(DISP_EPS_SQ);
        clear(&mut field.g);
        field.active.clear();
        if track_huu {
            clear(&mut field.huu);
        }
        let mut min_d2: Binary32 = Binary32::from_bits(INFINITY);
        let ghost graph = self@;
        let ghost huu = old(field).huu@;
        assert(field.active@ =~= graph.edge_pairs(x@, 0));

        let mut k: usize = 0;
        while k < self.edges.len()
            invariant
                self.wf(),
                graph == self@,
                n == self.n,
                2 * n <= x.len(),
                eps == lit(DISP_EPS_SQ),
                k <= self.edges.len(),
                field.shaped(n as nat),
                field.active@ == graph.edge_pairs(x@, k as nat),
                track_huu ==> holds_diagonal(field.huu@, field.active@, n as nat),
                !track_huu ==> field.huu@ == huu,
                least_so_far(n as nat, x@, min_d2, 0, 0),
                forall|w: int|
                    #![trigger field.g@[w]]
                    #![trigger field.g@[n + w]]
                    0 <= w < n ==> field.g@[w] == graph.edge_gradient(x@, w, Axis::X, k as nat)
                        && field.g@[n + w] == graph.edge_gradient(x@, w, Axis::Y, k as nat),
            decreases self.edges.len() - k,
        {
            let e: Edge = self.edges[k];
            assert(e == graph.edges[k as int]);
            let u: usize = e.u as usize;
            let v: usize = e.v as usize;
            let dx: Binary32 = x[u] - x[v];
            let dy: Binary32 = x[n + u] - x[n + v];
            let d2: Binary32 = dx * dx + dy * dy;
            assert(d2 == dist2(n as nat, x@, u as int, v as int));
            if d2.lt(min_d2) {
                min_d2 = d2;
            }
            if !d2.le(eps) {
                let ghost g = field.g@;
                let (gxc, gyc) = process_active(n, x, u, v, e.ideal, track_huu, field);
                let gx: Binary32 = field.g[u] + gxc;
                field.g.set(u, gx);
                let gy: Binary32 = field.g[n + u] + gyc;
                field.g.set(n + u, gy);
                assert forall|w: int|
                    #![trigger field.g@[w]]
                    #![trigger field.g@[n + w]]
                    0 <= w < n implies field.g@[w] == graph.edge_gradient(
                    x@,
                    w,
                    Axis::X,
                    (k + 1) as nat,
                ) && field.g@[n + w] == graph.edge_gradient(x@, w, Axis::Y, (k + 1) as nat) by {
                    assert(g[w] == graph.edge_gradient(x@, w, Axis::X, k as nat));
                }
            }
            k = k + 1;
        }

        let mut u: usize = 0;
        while u < n
            invariant
                self.wf(),
                graph == self@,
                n == self.n,
                2 * n <= x.len(),
                eps == lit(DISP_EPS_SQ),
                u <= n,
                field.shaped(n as nat),
                field.active@ == graph.edge_pairs(x@, graph.edges.len()) + graph.rows_pairs(
                    x@,
                    u as nat,
                ),
                track_huu ==> holds_diagonal(field.huu@, field.active@, n as nat),
                !track_huu ==> field.huu@ == huu,
                least_so_far(n as nat, x@, min_d2, u as int, u + 1),
                holds_gradient(graph, x@, field.g@, u as int, u + 1),
            decreases n - u,
        {
            let row: usize = self.row_off[u];
            let mut gxu: Binary32 = Binary32::from_bits(0);
            let mut gyu: Binary32 = Binary32::from_bits(0);
            let mut v: usize = u + 1;
            assert(graph.row_pairs(x@, u as int, u + 1) =~= Seq::<ActivePair>::empty());
            while v < n
                invariant
                    self.wf(),
                    graph == self@,
                    n == self.n,
                    2 * n <= x.len(),
                    eps == lit(DISP_EPS_SQ),
                    u < v <= n,
                    row == row_start(n as nat, u as nat),
                    field.shaped(n as nat),
                    field.active@ == graph.edge_pairs(x@, graph.edges.len()) + graph.rows_pairs(
                        x@,
                        u as nat,
                    ) + graph.row_pairs(x@, u as int, v as int),
                    track_huu ==> holds_diagonal(field.huu@, field.active@, n as nat),
                    !track_huu ==> field.huu@ == huu,
                    least_so_far(n as nat, x@, min_d2, u as int, v as int),
                    holds_gradient(graph, x@, field.g@, u as int, v as int),
                    gxu == graph.row_gradient(x@, u as int, Axis::X, v as int),
                    gyu == graph.row_gradient(x@, u as int, Axis::Y, v as int),
                decreases n - v,
            {
                let dx: Binary32 = x[u] - x[v];
                let dy: Binary32 = x[n + u] - x[n + v];
                let d2: Binary32 = dx * dx + dy * dy;
                assert(d2 == dist2(n as nat, x@, u as int, v as int));
                if d2.lt(min_d2) {
                    min_d2 = d2;
                }
                proof {
                    lemma_tri_index_bound(n as nat, u as int, v as int);
                    assert(self.tri.len() == pair_count(n as nat));
                }
                let s: Binary32 = self.tri[row + (v - u - 1)];
                assert(s == graph.swept(u as int, v as int));
                let near: bool = if self.p_stress {
                    d2.lt(s * s)
                } else {
                    Binary32::from_bits(0).lt(s)
                };
                let ghost g = field.g@;
                let ghost pairs = field.active@;
                if near && eps.lt(d2) {
                    let (gxc, gyc) = process_active(n, x, u, v, s, track_huu, field);
                    gxu = gxu + gxc;
                    gyu = gyu + gyc;
                    assert(field.active@ =~= graph.edge_pairs(x@, graph.edges.len())
                        + graph.rows_pairs(x@, u as nat) + graph.row_pairs(x@, u as int, v + 1));
                }
                assert forall|w: int|
                    #![trigger field.g@[w]]
                    #![trigger field.g@[n + w]]
                    0 <= w < n implies field.g@[w] == graph.partial(
                    x@,
                    w,
                    Axis::X,
                    u as int,
                    v + 1,
                ) && field.g@[n + w] == graph.partial(x@, w, Axis::Y, u as int, v + 1) by {
                    assert(g[w] == graph.partial(x@, w, Axis::X, u as int, v as int));
                }
                v = v + 1;
            }
            let ghost g = field.g@;
            let gx: Binary32 = field.g[u] + gxu;
            field.g.set(u, gx);
            let gy: Binary32 = field.g[n + u] + gyu;
            field.g.set(n + u, gy);
            assert forall|w: int|
                #![trigger field.g@[w]]
                #![trigger field.g@[n + w]]
                0 <= w < n implies field.g@[w] == graph.partial(x@, w, Axis::X, u + 1, u + 2)
                && field.g@[n + w] == graph.partial(x@, w, Axis::Y, u + 1, u + 2) by {
                assert(g[w] == graph.partial(x@, w, Axis::X, u as int, n as int));
            }
            assert(field.active@ =~= graph.edge_pairs(x@, graph.edges.len()) + graph.rows_pairs(
                x@,
                (u + 1) as nat,
            ));
            u = u + 1;
        }
        assert(field.g@ =~= graph.gradients(x@)) by {
            assert forall|i: int| 0 <= i < 2 * n implies field.g@[i] == graph.gradients(x@)[i] by {
                if i < n {
                    assert(field.g@[i] == graph.partial(x@, i, Axis::X, n as int, n + 1));
                } else {
                    let w = i - n;
                    assert(field.g@[n + w] == graph.partial(x@, w, Axis::Y, n as int, n + 1));
                }
            }
        }
        if track_huu {
            assert(field.huu@ =~= diagonals(field.active@, n as nat)) by {
                assert forall|i: int| 0 <= i < 2 * n implies field.huu@[i] == diagonals(
                    field.active@,
                    n as nat,
                )[i] by {
                    if i >= n {
                        let w = i - n;
                        assert(field.huu@[n + w] == field.huu@[i]);
                    }
                }
            }
        }
        min_d2
    }
}

} // verus!
