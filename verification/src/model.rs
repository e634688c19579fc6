//! What the layout engine computes, as functions of positions and of the pairs of nodes.
//!
//! Node `w` of `n` has its horizontal coordinate at index `w` of a position sequence and its
//! vertical one at index `n + w`. Sums are not associative in single precision, so every sum below
//! fixes the order in which its terms are added.
use crate::binary32::{lit, Binary32};
use crate::sampling::ONE;
use vstd::prelude::*;

verus! {

/// The pattern of two.
pub const TWO: u32 = 0x4000_0000;

/// The pattern of four.
pub const FOUR: u32 = 0x4080_0000;

/// The pattern of six.
pub const SIX: u32 = 0x40c0_0000;

/// The pattern of plus infinity.
pub const INFINITY: u32 = 0x7f80_0000;

/// The pattern of the largest finite number.
pub const LARGEST: u32 = 0x7f7f_ffff;

/// The pattern of one billionth: nodes that are no further apart than this coincide.
pub const DISP_EPS: u32 = 0x3089_705f;

/// The pattern of the square of [`DISP_EPS`].
pub const DISP_EPS_SQ: u32 = 0x2193_92ee;

/// A pair of adjacent nodes with the distance that it is pulled or pushed to.
#[derive(Clone, Copy, Debug)]
pub struct Edge {
    pub u: u32,
    pub v: u32,
    pub ideal: Binary32,
}

/// A pair of nodes that took part in a sweep, with its entry of the Hessian for each axis.
#[derive(Clone, Copy, Debug)]
pub struct ActivePair {
    pub u: u16,
    pub v: u16,
    pub idk_x: Binary32,
    pub idk_y: Binary32,
}

/// One of the two coordinates.
pub enum Axis {
    X,
    Y,
}

/// The pairs of nodes that forces act between.
#[verifier::ext_equal]
pub struct Graph {
    /// The number of nodes.
    pub n: nat,
    /// The packed upper triangle: the ideal distance of each pair that is swept, zero for the
    /// pairs that never are, which are the edges and the pairs that are not connected.
    pub tri: Seq<Binary32>,
    /// The adjacent pairs; they are active whatever their distance.
    pub edges: Seq<Edge>,
    /// Whether swept pairs are active only when they are closer than their ideal distance.
    pub p_stress: bool,
}

/// Where row `u` of the packed upper triangle of `n` nodes starts.
pub open spec fn row_start(n: nat, u: nat) -> nat
    decreases u,
{
    if u == 0 {
        0
    } else {
        row_start(n, (u - 1) as nat) + if u <= n {
            (n - u) as nat
        } else {
            0
        }
    }
}

/// Where the pair of the nodes `u < v` stands in the packed upper triangle.
pub open spec fn tri_index(n: nat, u: int, v: int) -> int {
    row_start(n, u as nat) + (v - u - 1)
}

/// The number of pairs of `n` nodes.
pub open spec fn pair_count(n: nat) -> nat {
    row_start(n, n)
}

/// Where the coordinate of a node stands in a position sequence.
pub open spec fn at(n: nat, w: int, axis: Axis) -> int {
    match axis {
        Axis::X => w,
        Axis::Y => n + w,
    }
}

/// The signed distance of two nodes along an axis.
pub open spec fn delta(n: nat, x: Seq<Binary32>, u: int, v: int, axis: Axis) -> Binary32 {
    x[at(n, u, axis)].minus(x[at(n, v, axis)])
}

/// The squared distance of two nodes.
pub open spec fn dist2(n: nat, x: Seq<Binary32>, u: int, v: int) -> Binary32 {
    let dx = delta(n, x, u, v, Axis::X);
    let dy = delta(n, x, u, v, Axis::Y);
    dx.times(dx).plus(dy.times(dy))
}

/// The factor by which the coordinate differences of a pair enter the gradient:
/// `2 * (d - s) / s^2 / d` for the distance `d` and the ideal distance `s`.
pub open spec fn pull(d2: Binary32, s: Binary32) -> Binary32 {
    let d = d2.root();
    let rid2 = lit(ONE).over(s.times(s));
    let r = lit(ONE).over(d);
    lit(TWO).times(d.minus(s)).times(rid2).times(r)
}

/// The part of the gradient at `u` that the pair of `u` and `v` contributes; the part at `v` is its
/// opposite.
pub open spec fn force(
    n: nat,
    x: Seq<Binary32>,
    u: int,
    v: int,
    s: Binary32,
    axis: Axis,
) -> Binary32 {
    delta(n, x, u, v, axis).times(pull(dist2(n, x, u, v), s))
}

/// The entry of the Hessian for a pair: `2 / s * c^2 / d^3 - 4 / s^2` where `c` is the coordinate
/// difference across the axis.
pub open spec fn curvature(d2: Binary32, s: Binary32, across: Binary32) -> Binary32 {
    let d = d2.root();
    let rid2 = lit(ONE).over(s.times(s));
    let r = lit(ONE).over(d);
    let r3 = r.times(r).times(r);
    let c = lit(TWO).times(rid2).times(s).times(r3);
    c.times(across).times(across).minus(lit(FOUR).times(rid2))
}

/// The record of an active pair.
pub open spec fn pair_of(n: nat, x: Seq<Binary32>, u: int, v: int, s: Binary32) -> ActivePair {
    let d2 = dist2(n, x, u, v);
    ActivePair {
        u: u as u16,
        v: v as u16,
        idk_x: curvature(d2, s, delta(n, x, u, v, Axis::Y)),
        idk_y: curvature(d2, s, delta(n, x, u, v, Axis::X)),
    }
}

/// Whether no two nodes coincide.
pub open spec fn separated(n: nat, x: Seq<Binary32>) -> bool {
    forall|u: int, v: int|
        0 <= u < v < n ==> !(#[trigger] dist2(n, x, u, v)).at_most(lit(DISP_EPS_SQ))
}

/// Whether `m` is the least squared distance of two nodes, infinity where there is none. Squared
/// distances that are a NaN are left out.
pub open spec fn least_dist2(n: nat, x: Seq<Binary32>, m: Binary32) -> bool {
    &&& !m.nan()
    &&& m == lit(INFINITY) || exists|u: int, v: int|
        0 <= u < v < n && m == #[trigger] dist2(n, x, u, v)
    &&& forall|u: int, v: int| 0 <= u < v < n ==> !(#[trigger] dist2(n, x, u, v)).less(m)
}

impl Graph {
    /// The ideal distance with which a pair is swept; zero where it is not.
    pub open spec fn swept(self, u: int, v: int) -> Binary32 {
        self.tri[tri_index(self.n, u, v)]
    }

    /// Whether edge `k` is active: its ends do not coincide.
    pub open spec fn edge_active(self, x: Seq<Binary32>, k: int) -> bool {
        let e = self.edges[k];
        !dist2(self.n, x, e.u as int, e.v as int).at_most(lit(DISP_EPS_SQ))
    }

    /// Whether the pair is active in the sweep over the triangle: it is connected, in p-stress mode
    /// also closer than its ideal distance, and its ends do not coincide.
    pub open spec fn pair_active(self, x: Seq<Binary32>, u: int, v: int) -> bool {
        let d2 = dist2(self.n, x, u, v);
        let s = self.swept(u, v);
        &&& if self.p_stress {
            d2.less(s.times(s))
        } else {
            lit(0).less(s)
        }
        &&& lit(DISP_EPS_SQ).less(d2)
    }

    /// The gradient at `w` from the first `k` edges.
    pub open spec fn edge_gradient(self, x: Seq<Binary32>, w: int, axis: Axis, k: nat) -> Binary32
        decreases k,
    {
        if k == 0 {
            lit(0)
        } else {
            let before = self.edge_gradient(x, w, axis, (k - 1) as nat);
            let e = self.edges[k - 1];
            if !self.edge_active(x, k - 1) {
                before
            } else if e.u == w {
                before.plus(force(self.n, x, e.u as int, e.v as int, e.ideal, axis))
            } else if e.v == w {
                before.minus(force(self.n, x, e.u as int, e.v as int, e.ideal, axis))
            } else {
                before
            }
        }
    }

    /// The gradient at `w` from the edges and from the swept pairs of the rows before `r`, in which
    /// `w` is the second node.
    pub open spec fn column_gradient(self, x: Seq<Binary32>, w: int, axis: Axis, r: nat) -> Binary32
        decreases r,
    {
        if r == 0 {
            self.edge_gradient(x, w, axis, self.edges.len())
        } else {
            let before = self.column_gradient(x, w, axis, (r - 1) as nat);
            if self.pair_active(x, r - 1, w) {
                before.minus(force(self.n, x, r - 1, w, self.swept(r - 1, w), axis))
            } else {
                before
            }
        }
    }

    /// The sum over the swept pairs of row `u` whose second node is before `end`.
    pub open spec fn row_gradient(self, x: Seq<Binary32>, u: int, axis: Axis, end: int) -> Binary32
        decreases end - u,
    {
        if end <= u + 1 {
            lit(0)
        } else {
            let before = self.row_gradient(x, u, axis, end - 1);
            if self.pair_active(x, u, end - 1) {
                before.plus(force(self.n, x, u, end - 1, self.swept(u, end - 1), axis))
            } else {
                before
            }
        }
    }

    /// The gradient at node `w`: what the edges and the earlier rows left there, plus the sum over
    /// its own row.
    pub open spec fn gradient(self, x: Seq<Binary32>, w: int, axis: Axis) -> Binary32 {
        self.column_gradient(x, w, axis, w as nat).plus(
            self.row_gradient(x, w, axis, self.n as int),
        )
    }

    /// The gradient of all nodes, laid out as positions are.
    pub open spec fn gradients(self, x: Seq<Binary32>) -> Seq<Binary32> {
        Seq::new(
            2 * self.n,
            |i: int|
                if i < self.n {
                    self.gradient(x, i, Axis::X)
                } else {
                    self.gradient(x, i - self.n, Axis::Y)
                },
        )
    }

    /// The active pairs among the first `k` edges.
    pub open spec fn edge_pairs(self, x: Seq<Binary32>, k: nat) -> Seq<ActivePair>
        decreases k,
    {
        if k == 0 {
            Seq::empty()
        } else {
            let before = self.edge_pairs(x, (k - 1) as nat);
            let e = self.edges[k - 1];
            if self.edge_active(x, k - 1) {
                before.push(pair_of(self.n, x, e.u as int, e.v as int, e.ideal))
            } else {
                before
            }
        }
    }

    /// The active pairs of row `u` whose second node is before `end`.
    pub open spec fn row_pairs(self, x: Seq<Binary32>, u: int, end: int) -> Seq<ActivePair>
        decreases end - u,
    {
        if end <= u + 1 {
            Seq::empty()
        } else {
            let before = self.row_pairs(x, u, end - 1);
            if self.pair_active(x, u, end - 1) {
                before.push(pair_of(self.n, x, u, end - 1, self.swept(u, end - 1)))
            } else {
                before
            }
        }
    }

    /// The active pairs of the first `r` rows.
    pub open spec fn rows_pairs(self, x: Seq<Binary32>, r: nat) -> Seq<ActivePair>
        decreases r,
    {
        if r == 0 {
            Seq::empty()
        } else {
            self.rows_pairs(x, (r - 1) as nat) + self.row_pairs(x, r - 1, self.n as int)
        }
    }

    /// The active pairs: the edges first, then the rows of the triangle.
    pub open spec fn active_pairs(self, x: Seq<Binary32>) -> Seq<ActivePair> {
        self.edge_pairs(x, self.edges.len()) + self.rows_pairs(x, self.n)
    }
}

/// The entry of an active pair for an axis.
pub open spec fn entry(p: ActivePair, axis: Axis) -> Binary32 {
    match axis {
        Axis::X => p.idk_x,
        Axis::Y => p.idk_y,
    }
}

/// The diagonal entry of the Hessian at node `w` from the first `k` active pairs: minus the sum of
/// the entries of the pairs that hold the node.
pub open spec fn diagonal(pairs: Seq<ActivePair>, w: int, axis: Axis, k: nat) -> Binary32
    decreases k,
{
    if k == 0 {
        lit(0)
    } else {
        let before = diagonal(pairs, w, axis, (k - 1) as nat);
        let p = pairs[k - 1];
        if p.u == w || p.v == w {
            before.minus(entry(p, axis))
        } else {
            before
        }
    }
}

/// The diagonal of the Hessian of `n` nodes, laid out as positions are.
pub open spec fn diagonals(pairs: Seq<ActivePair>, n: nat) -> Seq<Binary32> {
    Seq::new(
        2 * n,
        |i: int|
            if i < n {
                diagonal(pairs, i, Axis::X, pairs.len())
            } else {
                diagonal(pairs, i - n, Axis::Y, pairs.len())
            },
    )
}

/// Whether `m` is the greatest of the entries that are above zero, and zero where none is.
pub open spec fn peak(entries: Seq<Binary32>, m: Binary32) -> bool {
    &&& m == lit(0) || (lit(0).less(m) && entries.contains(m))
    &&& forall|i: int| 0 <= i < entries.len() ==> !m.less(#[trigger] entries[i])
}

/// Whether a number is an ideal distance: finite and above zero.
pub open spec fn is_distance(d: Binary32) -> bool {
    d.finite() && lit(0).less(d)
}

/// The ideal distance that an entry of a distance matrix stands for; zero where the pair is not
/// connected.
pub open spec fn ideal_of(d: Binary32) -> Binary32 {
    if is_distance(d) {
        d
    } else {
        lit(0)
    }
}

/// The ideal distances of row `u` of an `n` by `n` matrix up to the column `end`.
pub open spec fn triangle_row(d: Seq<Binary32>, n: nat, u: int, end: int) -> Seq<Binary32> {
    Seq::new((end - u - 1) as nat, |j: int| ideal_of(d[u * n + (u + 1 + j)]))
}

/// The packed upper triangle of an `n` by `n` matrix, up to the row `r`.
pub open spec fn triangle(d: Seq<Binary32>, n: nat, r: nat) -> Seq<Binary32>
    decreases r,
{
    if r == 0 {
        Seq::empty()
    } else {
        triangle(d, n, (r - 1) as nat) + triangle_row(d, n, r - 1, n as int)
    }
}

/// Where an edge stands in the packed upper triangle.
pub open spec fn edge_index(n: nat, e: Edge) -> int {
    tri_index(n, e.u as int, e.v as int)
}

/// A triangle with the ideal distances of the first `k` edges put in.
pub open spec fn with_edges(tri: Seq<Binary32>, n: nat, edges: Seq<Edge>, k: nat) -> Seq<Binary32>
    decreases k,
{
    if k == 0 {
        tri
    } else {
        with_edges(tri, n, edges, (k - 1) as nat).update(
            edge_index(n, edges[k - 1]),
            edges[k - 1].ideal,
        )
    }
}

/// A triangle with the first `k` edges taken out.
pub open spec fn without_edges(
    tri: Seq<Binary32>,
    n: nat,
    edges: Seq<Edge>,
    k: nat,
) -> Seq<Binary32>
    decreases k,
{
    if k == 0 {
        tri
    } else {
        without_edges(tri, n, edges, (k - 1) as nat).update(
            edge_index(n, edges[k - 1]),
            lit(0),
        )
    }
}

/// Whether a pair of nodes is adjacent: it is connected, and its weight is at most one.
pub open spec fn adjacent(
    ideals: Seq<Binary32>,
    weights: Seq<Binary32>,
    n: nat,
    u: int,
    v: int,
) -> bool {
    lit(0).less(ideals[tri_index(n, u, v)]) && weights[u * n + v].at_most(lit(ONE))
}

/// The adjacent pairs of row `u` whose second node is before `end`.
pub open spec fn row_edges(
    ideals: Seq<Binary32>,
    weights: Seq<Binary32>,
    n: nat,
    u: int,
    end: int,
) -> Seq<Edge>
    decreases end - u,
{
    if end <= u + 1 {
        Seq::empty()
    } else {
        let before = row_edges(ideals, weights, n, u, end - 1);
        if adjacent(ideals, weights, n, u, end - 1) {
            before.push(
                Edge {
                    u: u as u32,
                    v: (end - 1) as u32,
                    ideal: ideals[tri_index(n, u, end - 1)],
                },
            )
        } else {
            before
        }
    }
}

/// The adjacent pairs of the first `r` rows.
pub open spec fn edge_list(
    ideals: Seq<Binary32>,
    weights: Seq<Binary32>,
    n: nat,
    r: nat,
) -> Seq<Edge>
    decreases r,
{
    if r == 0 {
        Seq::empty()
    } else {
        edge_list(ideals, weights, n, (r - 1) as nat) + row_edges(
            ideals,
            weights,
            n,
            r - 1,
            n as int,
        )
    }
}

impl Graph {
    /// The ideal distances of all pairs, adjacent or not.
    pub open spec fn ideals(self) -> Seq<Binary32> {
        with_edges(self.tri, self.n, self.edges, self.edges.len())
    }
}

/// The graph of a distance matrix before any weights are set.
pub open spec fn graph_of(d: Seq<Binary32>, n: nat) -> Graph {
    Graph { n, tri: triangle(d, n, n), edges: Seq::empty(), p_stress: false }
}

/// The graph with the given weights in place of those it had. Weights turn p-stress mode on, with
/// the adjacent pairs as edges; no weights turn it off.
pub open spec fn weighted(g: Graph, weights: Seq<Binary32>) -> Graph {
    let ideals = g.ideals();
    if weights.len() == 0 {
        Graph { n: g.n, tri: ideals, edges: Seq::empty(), p_stress: false }
    } else {
        let edges = edge_list(ideals, weights, g.n, g.n);
        Graph {
            n: g.n,
            tri: without_edges(ideals, g.n, edges, edges.len()),
            edges,
            p_stress: true,
        }
    }
}

/// Whether `m` is the length of displacements: the least distance of a matrix, and one where the
/// matrix has none below the largest finite number.
pub open spec fn displacement_length(d: Seq<Binary32>, m: Binary32) -> bool {
    ||| {
        &&& m == lit(ONE)
        &&& forall|i: int|
            0 <= i < d.len() && is_distance(#[trigger] d[i]) ==> d[i] == lit(LARGEST)
    }
    ||| {
        &&& is_distance(m)
        &&& m != lit(LARGEST)
        &&& d.contains(m)
        &&& forall|i: int| 0 <= i < d.len() && is_distance(#[trigger] d[i]) ==> !d[i].less(m)
    }
}

} // verus!
