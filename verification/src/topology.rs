//! The pairs of nodes that forces act between, and how they are laid out.
use crate::binary32::{lit, Binary32};
use crate::model::{
    displacement_length, graph_of, ideal_of, is_distance, pair_count, row_start, tri_index,
    triangle, triangle_row, ActivePair, Edge, Graph, LARGEST,
};
use crate::sampling::ONE;
use vstd::prelude::*;

verus! {

/// The pairs of nodes that forces act between.
pub struct Topology {
    pub n: usize,
    /// The packed upper triangle of ideal distances; zero for the pairs that are not swept.
    pub tri: Vec<Binary32>,
    /// Where each row of the triangle starts.
    pub row_off: Vec<usize>,
    pub edges: Vec<Edge>,
    /// False until a weight matrix is set; before that all connected pairs are active.
    pub p_stress: bool,
}

/// What a sweep leaves: the gradient, the diagonal of the Hessian and the active pairs.
pub struct Field {
    pub g: Vec<Binary32>,
    pub huu: Vec<Binary32>,
    pub active: Vec<ActivePair>,
}

impl View for Topology {
    type V = Graph;

    open spec fn view(&self) -> Graph {
        Graph {
            n: self.n as nat,
            tri: self.tri@,
            edges: self.edges@,
            p_stress: self.p_stress,
        }
    }
}

/// Rows end before the triangle does.
pub proof fn lemma_row_bound(n: nat, u: nat, r: nat)
    requires
        u <= r <= n,
    ensures
        row_start(n, u) <= row_start(n, r),
    decreases r - u,
{
    if u < r {
        lemma_row_bound(n, u, (r - 1) as nat);
    }
}

/// A pair of nodes has a place in the triangle.
pub proof fn lemma_tri_index_bound(n: nat, u: int, v: int)
    requires
        0 <= u < v < n,
    ensures
        row_start(n, u as nat) <= tri_index(n, u, v) < row_start(n, (u + 1) as nat),
        0 <= tri_index(n, u, v) < pair_count(n),
{
    lemma_row_bound(n, (u + 1) as nat, n);
}

/// Different pairs have different places, in the order of the rows.
pub proof fn lemma_tri_index_order(n: nat, u: int, v: int, a: int, b: int)
    requires
        0 <= u < v < n,
        0 <= a < b < n,
    ensures
        (tri_index(n, u, v) < tri_index(n, a, b)) == (u < a || (u == a && v < b)),
        (tri_index(n, u, v) == tri_index(n, a, b)) == (u == a && v == b),
{
    lemma_tri_index_bound(n, u, v);
    lemma_tri_index_bound(n, a, b);
    if u < a {
        lemma_row_bound(n, (u + 1) as nat, a as nat);
    } else if a < u {
        lemma_row_bound(n, (a + 1) as nat, u as nat);
    }
}

/// What holds of every graph that an engine works on.
pub open spec fn graph_valid(g: Graph) -> bool {
    &&& g.n < 0xffff
    &&& g.tri.len() == pair_count(g.n)
    &&& forall|i: int|
        0 <= i < g.tri.len() ==> #[trigger] g.tri[i] == lit(0) || (g.tri[i].finite() && lit(0).less(
            g.tri[i],
        ))
    &&& forall|k: int|
        0 <= k < g.edges.len() ==> {
            let e = #[trigger] g.edges[k];
            &&& e.u < e.v < g.n
            &&& e.ideal.finite() && lit(0).less(e.ideal)
            &&& g.swept(e.u as int, e.v as int) == lit(0)
        }
    &&& forall|j: int, k: int|
        0 <= j < k < g.edges.len() ==> tri_index(
            g.n,
            (#[trigger] g.edges[j]).u as int,
            g.edges[j].v as int,
        ) < tri_index(g.n, (#[trigger] g.edges[k]).u as int, g.edges[k].v as int)
    &&& !g.p_stress ==> g.edges.len() == 0
}

impl Topology {
    /// What holds of every topology.
    pub open spec fn wf(&self) -> bool {
        &&& graph_valid(self@)
        &&& self.row_off.len() == self.n
        &&& forall|u: int|
            0 <= u < self.n ==> #[trigger] self.row_off[u] == row_start(self.n as nat, u as nat)
    }
}

impl Field {
    /// Whether the field has the shape for `n` nodes.
    pub open spec fn shaped(&self, n: nat) -> bool {
        self.g.len() == 2 * n && self.huu.len() == 2 * n
    }
}

/// The place of an entry in a square matrix of fewer than 65535 rows fits in 32 bits.
pub proof fn lemma_matrix_index(n: nat, u: int, v: int)
    requires
        0 <= u < v < n < 0xffff,
    ensures
        0 <= u * n,
        u * n + v < n * (n - 1) < 0x1_0000_0000,
{
    assert(u * n <= (n - 2) * n) by (nonlinear_arith)
        requires
            u <= n - 2,
            n >= 0,
    ;
    assert((n - 2) * n + n == n * (n - 1)) by (nonlinear_arith);
    assert(0 <= u * n) by (nonlinear_arith)
        requires
            u >= 0,
            n >= 0,
    ;
    assert(n * (n - 1) < 0x1_0000_0000) by (nonlinear_arith)
        requires
            2 <= n < 0xffff,
    ;
}

/// The rows of the triangle are as long as their starts are apart.
pub proof fn lemma_triangle_len(d: Seq<Binary32>, n: nat, r: nat)
    requires
        r <= n,
    ensures
        triangle(d, n, r).len() == row_start(n, r),
        forall|i: int|
            0 <= i < triangle(d, n, r).len() ==> #[trigger] triangle(d, n, r)[i] == lit(0)
                || is_distance(triangle(d, n, r)[i]),
    decreases r,
{
    if r > 0 {
        lemma_triangle_len(d, n, (r - 1) as nat);
    }
}

/// The packed upper triangle holds for each pair what the matrix says of it.
pub proof fn law_triangle_entry(d: Seq<Binary32>, n: nat, u: int, v: int)
    requires
        0 <= u < v < n,
    ensures
        graph_of(d, n).swept(u, v) == ideal_of(d[u * n + v]),
{
    lemma_triangle_entry(d, n, u, v, n);
}

proof fn lemma_triangle_entry(d: Seq<Binary32>, n: nat, u: int, v: int, r: nat)
    requires
        0 <= u < v < n,
        u < r <= n,
    ensures
        tri_index(n, u, v) < triangle(d, n, r).len(),
        triangle(d, n, r)[tri_index(n, u, v)] == ideal_of(d[u * n + v]),
    decreases r,
{
    lemma_triangle_len(d, n, (r - 1) as nat);
    lemma_triangle_len(d, n, r);
    lemma_tri_index_bound(n, u, v);
    if u == r - 1 {
        assert(triangle_row(d, n, u, n as int)[v - u - 1] == ideal_of(d[u * n + v]));
    } else {
        lemma_triangle_entry(d, n, u, v, (r - 1) as nat);
    }
}

/// The least distance of a matrix, and one where it has none.
pub fn shortest_distance(d: &Vec<Binary32>) -> (m: Binary32)
    ensures
        displacement_length(d@, m),
{
    let zero: Binary32 = Binary32::from_bits(0);
    let largest: Binary32 = Binary32::from_bits(LARGEST);
    let mut m: Binary32 = largest;
    let mut i: usize = 0;
    while i < d.len()
        invariant
            i <= d.len(),
            zero == lit(0),
            is_distance(m),
            m == lit(LARGEST) || d@.contains(m),
            forall|j: int| 0 <= j < i && is_distance(#[trigger] d@[j]) ==> !d@[j].less(m),
        decreases d.len() - i,
    {
        let c: Binary32 = d[i];
        if c.is_finite() && zero.lt(c) && c.lt(m) {
            m = c;
        }
        i = i + 1;
    }
    if m.equals(largest) {
        assert forall|j: int| 0 <= j < d.len() && is_distance(#[trigger] d@[j]) implies d@[j] == lit(
            LARGEST,
        ) by {
            assert(!d@[j].less(m));
        }
        Binary32::from_bits(ONE)
    } else {
        m
    }
}

impl Topology {
    /// The pairs of a distance matrix of `n` rows: entries that are not finite or not above zero
    /// are pairs that are not connected. Only the upper triangle is read.
    pub fn new(d_mat: &Vec<Binary32>, n: usize) -> (t: Topology)
        requires
            n < 0xffff,
            n * (n - 1) <= d_mat.len(),
        ensures
            t.wf(),
            t@ == graph_of(d_mat@, n as nat),
    {
        let zero: Binary32 = Binary32::from_bits(0);
        let mut tri: Vec<Binary32> = Vec::new();
        let mut row_off: Vec<usize> = Vec::new();
        let mut u: usize = 0;
        while u < n
            invariant
                u <= n < 0xffff,
                n * (n - 1) <= d_mat.len(),
                zero == lit(0),
                row_off.len() == u,
                forall|r: int| 0 <= r < u ==> #[trigger] row_off[r] == row_start(n as nat, r as nat),
                tri@ == triangle(d_mat@, n as nat, u as nat),
            decreases n - u,
        {
            proof {
                lemma_triangle_len(d_mat@, n as nat, u as nat);
            }
            row_off.push(tri.len());
            let ghost rows = tri@;
            let mut v: usize = u + 1;
            assert(tri@ =~= rows + triangle_row(d_mat@, n as nat, u as int, u + 1));
            while v < n
                invariant
                    u < v <= n < 0xffff,
                    n * (n - 1) <= d_mat.len(),
                    zero == lit(0),
                    tri@ == rows + triangle_row(d_mat@, n as nat, u as int, v as int),
                decreases n - v,
            {
                proof {
                    lemma_matrix_index(n as nat, u as int, v as int);
                }
                let d: Binary32 = d_mat[u * n + v];
                if d.is_finite() && zero.lt(d) {
                    tri.push(d);
                } else {
                    tri.push(zero);
                }
                assert(tri@ =~= rows + triangle_row(d_mat@, n as nat, u as int, v + 1));
                v = v + 1;
            }
            u = u + 1;
        }
        proof {
            lemma_triangle_len(d_mat@, n as nat, n as nat);
        }
        let t: Topology = Topology { n, tri, row_off, edges: Vec::new(), p_stress: false };
        assert(t.edges@ =~= Seq::<Edge>::empty());
        t
    }
}

impl Topology {
    /// A topology with the same pairs.
    pub fn copy(&self) -> (t: Topology)
        ensures
            t@ == self@,
            self.wf() ==> t.wf(),
    {
        let t: Topology = Topology {
            n: self.n,
            tri: self.tri.clone(),
            row_off: self.row_off.clone(),
            edges: self.edges.clone(),
            p_stress: self.p_stress,
        };
        assert(t.tri@ =~= self.tri@);
        assert(t.row_off@ =~= self.row_off@);
        assert(t.edges@ =~= self.edges@);
        t
    }
}

impl Field {
    /// A field with the same entries.
    pub fn copy(&self) -> (f: Field)
        ensures
            f.g@ == self.g@,
            f.huu@ == self.huu@,
            f.active@ == self.active@,
    {
        let f: Field = Field {
            g: self.g.clone(),
            huu: self.huu.clone(),
            active: self.active.clone(),
        };
        assert(f.g@ =~= self.g@);
        assert(f.huu@ =~= self.huu@);
        assert(f.active@ =~= self.active@);
        f
    }
}

} // verus!
