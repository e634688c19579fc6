//! The engine: displacing coincident nodes, sweeping, and the step size.
use crate::binary32::{lit, Binary32};
use crate::countdown::Countdown;
use crate::model::{
    diagonals, dist2, least_dist2, peak, separated, ActivePair, Graph, DISP_EPS, DISP_EPS_SQ,
    INFINITY,
};
use crate::motion::{
    crowded, descended, displaced, displaced_times, drifted, drifted_row, ended, ends, hessian_form,
    lane_square_sum, locked_form, locked_node, locks_in_range, pair_sum, pinned, rounds, settled,
    square_sum, squared_length, step_at, step_size, stepped, touching, Drift, Lock,
};
use crate::sampling::offset_dir;
use crate::settling::{
    law_limit_suffices, law_settled, lemma_one_more, lemma_settled_here, lemma_settled_next,
    round_limit,
};
use crate::topology::{graph_valid, Field, Topology};
use core::ops::Neg;
use vstd::prelude::*;

verus! {

/// The parts of the state that a computation of the gradient works on.
pub struct Engine {
    pub topology: Topology,
    pub field: Field,
    /// Whether the diagonal of the Hessian is tracked.
    pub track_huu: bool,
    /// The greatest entry of the diagonal, as last tracked.
    pub max_h: Binary32,
    /// The nodes with a soft lock.
    pub lock_us: Vec<u32>,
    /// How many outputs were taken from the generator of displacements.
    pub draws: u64,
    /// The length of displacements.
    pub min_d: Binary32,
}

/// Whether the pairs are pairs of `n` nodes, the lesser first.
pub open spec fn pairs_in_range(pairs: Seq<ActivePair>, n: nat) -> bool {
    forall|k: int| 0 <= k < pairs.len() ==> (#[trigger] pairs[k]).u < pairs[k].v && pairs[k].v < n
}

/// Whether the nodes are among `n`.
pub open spec fn nodes_in_range(nodes: Seq<u32>, n: nat) -> bool {
    forall|k: int| 0 <= k < nodes.len() ==> #[trigger] nodes[k] < n
}

impl Engine {
    /// The graph that the engine works on.
    pub open spec fn graph(&self) -> Graph {
        self.topology@
    }

    /// What holds of every engine.
    pub open spec fn wf(&self) -> bool {
        &&& self.topology.wf()
        &&& self.field.shaped(self.topology.n as nat)
        &&& pairs_in_range(self.field.active@, self.topology.n as nat)
        &&& nodes_in_range(self.lock_us@, self.topology.n as nat)
    }
}

proof fn lemma_row_pairs_in_range(g: Graph, x: Seq<Binary32>, u: int, end: int)
    requires
        g.n < 0xffff,
        0 <= u,
        end <= g.n,
    ensures
        pairs_in_range(g.row_pairs(x, u, end), g.n),
    decreases end - u,
{
    if end > u + 1 {
        lemma_row_pairs_in_range(g, x, u, end - 1);
    }
}

proof fn lemma_rows_pairs_in_range(g: Graph, x: Seq<Binary32>, r: nat)
    requires
        g.n < 0xffff,
        r <= g.n,
    ensures
        pairs_in_range(g.rows_pairs(x, r), g.n),
    decreases r,
{
    if r > 0 {
        lemma_rows_pairs_in_range(g, x, (r - 1) as nat);
        lemma_row_pairs_in_range(g, x, r - 1, g.n as int);
    }
}

proof fn lemma_edge_pairs_in_range(g: Graph, x: Seq<Binary32>, k: nat)
    requires
        graph_valid(g),
        k <= g.edges.len(),
    ensures
        pairs_in_range(g.edge_pairs(x, k), g.n),
    decreases k,
{
    if k > 0 {
        lemma_edge_pairs_in_range(g, x, (k - 1) as nat);
        assert(g.edges[k - 1].u < g.n);
    }
}

/// Active pairs are pairs of nodes, the lesser first.
pub proof fn lemma_active_pairs_in_range(g: Graph, x: Seq<Binary32>)
    requires
        graph_valid(g),
    ensures
        pairs_in_range(g.active_pairs(x), g.n),
{
    lemma_edge_pairs_in_range(g, x, g.edges.len());
    lemma_rows_pairs_in_range(g, x, g.n);
}

/// The least squared distance tells whether nodes coincide.
proof fn lemma_separated(n: nat, x: Seq<Binary32>, m: Binary32)
    requires
        least_dist2(n, x, m),
    ensures
        lit(DISP_EPS_SQ).less(m) == separated(n, x),
{
    let eps = lit(DISP_EPS_SQ);
    if eps.less(m) {
        assert forall|u: int, v: int| 0 <= u < v < n implies !(#[trigger] dist2(n, x, u, v)).at_most(
            eps,
        ) by {
            assert(!dist2(n, x, u, v).less(m));
        }
    } else {
        assert(m.at_most(eps));
        assert(m != lit(INFINITY));
        let (u, v) = choose|u: int, v: int| 0 <= u < v < n && m == #[trigger] dist2(n, x, u, v);
        assert(dist2(n, x, u, v).at_most(eps));
    }
}

/// The first `len` entries.
fn copy_of(x: &Vec<Binary32>, len: usize) -> (r: Vec<Binary32>)
    requires
        len <= x.len(),
    ensures
        r@ == x@.take(len as int),
{
    let mut r: Vec<Binary32> = Vec::new();
    let mut i: usize = 0;
    while i < len
        invariant
            i <= len <= x.len(),
            r@ == x@.take(i as int),
        decreases len - i,
    {
        r.push(x[i]);
        assert(r@ =~= x@.take(i + 1));
        i = i + 1;
    }
    r
}

/// Displaces coincident nodes: which nodes coincide is decided on the positions as they were when
/// the call was made, while displacements add up in the live positions. Tells whether any node was
/// displaced.
pub fn apply_displacements(
    n: usize,
    min_d: Binary32,
    draws: &mut u64,
    x: &mut Vec<Binary32>,
) -> (did_apply: bool)
    requires
        n < 0xffff,
        2 * n <= old(x).len(),
    ensures
        final(x)@ == displaced(n as nat, min_d, (Drift { x: old(x)@, draws: *old(draws) })).x,
        *final(draws) == displaced(
            n as nat,
            min_d,
            (Drift { x: old(x)@, draws: *old(draws) }),
        ).draws,
        did_apply == crowded(n as nat, old(x)@),
        final(x).len() == old(x).len(),
{
    let ghost seen = x@;
    let ghost start = Drift { x: x@, draws: *draws };
    let snapshot: Vec<Binary32> = copy_of(x, 2 * n);
    let eps: Binary32 = Binary32::from_bits(DISP_EPS);
    let mut did_apply: bool = false;
    let mut u: usize = 0;
    while u < n
        invariant
            u <= n < 0xffff,
            eps == lit(DISP_EPS),
            x.len() == seen.len(),
            2 * n <= seen.len(),
            snapshot@ == seen.take(2 * n),
            (Drift { x: x@, draws: *draws }) == drifted(n as nat, seen, min_d, start, u as nat),
            did_apply == exists|a: int, b: int|
                0 <= a < u && 0 <= b < n && #[trigger] touching(n as nat, seen, a, b),
        decreases n - u,
    {
        let ghost row = drifted(n as nat, seen, min_d, start, u as nat);
        let ghost earlier = did_apply;
        let mut v: usize = 0;
        while v < n
            invariant
                u < n < 0xffff,
                v <= n,
                eps == lit(DISP_EPS),
                x.len() == seen.len(),
                2 * n <= seen.len(),
                snapshot@ == seen.take(2 * n),
                (Drift { x: x@, draws: *draws }) == drifted_row(
                    n as nat,
                    seen,
                    min_d,
                    row,
                    u as int,
                    v as nat,
                ),
                did_apply == (earlier || exists|b: int|
                    0 <= b < v && #[trigger] touching(n as nat, seen, u as int, b)),
            decreases n - v,
        {
            let ghost so_far = did_apply;
            if u != v {
                let dx: Binary32 = snapshot[u] - snapshot[v];
                let dy: Binary32 = snapshot[n + u] - snapshot[n + v];
                assert(dx.times(dx).plus(dy.times(dy)) == dist2(
                    n as nat,
                    seen,
                    u as int,
                    v as int,
                ));
                if !eps.lt((dx * dx + dy * dy).sqrt()) {
                    assert(touching(n as nat, seen, u as int, v as int));
                    did_apply = true;
                    let (ox, oy) = offset_dir(min_d, draws);
                    let nx: Binary32 = x[v] + ox;
                    let ny: Binary32 = x[n + v] + oy;
                    x.set(v, nx);
                    x.set(n + v, ny);
                }
            }
            proof {
                let t = touching(n as nat, seen, u as int, v as int);
                assert(did_apply == (so_far || t));
                if exists|b: int| 0 <= b < v + 1 && #[trigger] touching(n as nat, seen, u as int, b) {
                    let b = choose|b: int|
                        0 <= b < v + 1 && #[trigger] touching(n as nat, seen, u as int, b);
                    assert(b == v || touching(n as nat, seen, u as int, b));
                }
            }
            v = v + 1;
        }
        proof {
            if exists|a: int, b: int|
                0 <= a < u + 1 && 0 <= b < n && #[trigger] touching(n as nat, seen, a, b) {
                let (a, b) = choose|a: int, b: int|
                    0 <= a < u + 1 && 0 <= b < n && #[trigger] touching(n as nat, seen, a, b);
                assert(a == u || touching(n as nat, seen, a, b));
            }
        }
        u = u + 1;
    }
    did_apply
}

proof fn lemma_row_stays(
    n: nat,
    seen: Seq<Binary32>,
    min_d: Binary32,
    d: Drift,
    u: int,
    end: nat,
)
    requires
        !crowded(n, seen),
        0 <= u < n,
        end <= n,
    ensures
        drifted_row(n, seen, min_d, d, u, end) == d,
    decreases end,
{
    if end > 0 {
        lemma_row_stays(n, seen, min_d, d, u, (end - 1) as nat);
        assert(!touching(n, seen, u, end - 1));
    }
}

/// Without coincident nodes nothing is displaced.
proof fn lemma_stays(n: nat, seen: Seq<Binary32>, min_d: Binary32, d: Drift, r: nat)
    requires
        !crowded(n, seen),
        r <= n,
    ensures
        drifted(n, seen, min_d, d, r) == d,
    decreases r,
{
    if r > 0 {
        lemma_stays(n, seen, min_d, d, (r - 1) as nat);
        lemma_row_stays(n, seen, min_d, d, r - 1, n);
    }
}

/// Whether no two nodes coincide.
fn apart(n: usize, x: &Vec<Binary32>) -> (r: bool)
    requires
        n < 0xffff,
        2 * n <= x.len(),
    ensures
        r == separated(n as nat, x@),
{
    let eps: Binary32 = Binary32::from_bits(DISP_EPS_SQ);
    let mut u: usize = 0;
    while u < n
        invariant
            u <= n < 0xffff,
            2 * n <= x.len(),
            eps == lit(DISP_EPS_SQ),
            forall|a: int, b: int|
                0 <= a < b < n && a < u ==> !(#[trigger] dist2(n as nat, x@, a, b)).at_most(eps),
        decreases n - u,
    {
        let mut v: usize = u + 1;
        while v < n
            invariant
                u < v <= n < 0xffff,
                2 * n <= x.len(),
                eps == lit(DISP_EPS_SQ),
                forall|a: int, b: int|
                    0 <= a < b < n && (a < u || (a == u && b < v)) ==> !(#[trigger] dist2(
                        n as nat,
                        x@,
                        a,
                        b,
                    )).at_most(eps),
            decreases n - v,
        {
            let dx: Binary32 = x[u] - x[v];
            let dy: Binary32 = x[n + u] - x[n + v];
            let d2: Binary32 = dx * dx + dy * dy;
            assert(d2 == dist2(n as nat, x@, u as int, v as int));
            if d2.le(eps) {
                return false;
            }
            v = v + 1;
        }
        u = u + 1;
    }
    true
}

/// Whether displacing the nodes that coincide at the positions `x` ends. As many rounds are tried as
/// there are states, if need be.
pub fn settles(n: usize, min_d: Binary32, draws: u64, x: &Vec<Binary32>) -> (r: bool)
    requires
        n < 0xffff,
        2 * n <= x.len(),
    ensures
        r == ends(n as nat, min_d, (Drift { x: x@, draws })),
{
    let ghost start = Drift { x: x@, draws };
    let mut y: Vec<Binary32> = copy_of(x, x.len());
    let mut count: u64 = draws;
    let mut left: Countdown = Countdown::new(n + 1);
    let ghost mut tried: nat = 0;
    assert(y@ =~= x@);
    while !apart(n, &y)
        invariant
            n < 0xffff,
            start == (Drift { x: x@, draws }),
            2 * n <= y.len() == start.x.len(),
            left.value() + tried == round_limit(n as nat),
            (Drift { x: y@, draws: count }) == displaced_times(n as nat, min_d, start, tried),
            ends(n as nat, min_d, start) == ends(n as nat, min_d, (Drift { x: y@, draws: count })),
            forall|j: nat|
                j < tried ==> !ended(
                    n as nat,
                    (#[trigger] displaced_times(n as nat, min_d, start, j)).x,
                ),
        decreases left.value(),
    {
        let ghost now = Drift { x: y@, draws: count };
        let moved: bool = apply_displacements(n, min_d, &mut count, &mut y);
        if !moved {
            proof {
                lemma_settled_here(n as nat, min_d, now);
            }
            return true;
        }
        if left.is_zero() {
            proof {
                if ends(n as nat, min_d, start) {
                    law_settled(n as nat, min_d, start);
                    law_limit_suffices(
                        n as nat,
                        min_d,
                        start,
                        rounds(n as nat, min_d, start),
                    );
                }
            }
            return false;
        }
        proof {
            lemma_settled_next(n as nat, min_d, now);
            lemma_one_more(n as nat, min_d, start, tried);
            tried = tried + 1;
        }
        left.step();
    }
    proof {
        lemma_settled_here(n as nat, min_d, (Drift { x: y@, draws: count }));
    }
    true
}

/// The greatest of the entries that are above zero, and zero where none is.
fn greatest(entries: &Vec<Binary32>) -> (m: Binary32)
    ensures
        peak(entries@, m),
{
    let mut m: Binary32 = Binary32::from_bits(0);
    let mut i: usize = 0;
    while i < entries.len()
        invariant
            i <= entries.len(),
            !m.nan(),
            m == lit(0) || (lit(0).less(m) && entries@.contains(m)),
            forall|j: int| 0 <= j < i ==> !m.less(#[trigger] entries@[j]),
        decreases entries.len() - i,
    {
        let h: Binary32 = entries[i];
        if m.lt(h) {
            m = h;
        }
        i = i + 1;
    }
    m
}

impl Engine {
    /// Computes the gradient and the active pairs at the positions `x`. While nodes coincide they
    /// are displaced first, until none does.
    pub fn compute(&mut self, x: &mut Vec<Binary32>)
        requires
            old(self).wf(),
            2 * old(self).topology.n <= old(x).len(),
            ends(
                old(self).graph().n,
                old(self).min_d,
                (Drift { x: old(x)@, draws: old(self).draws }),
            ),
        ensures
            final(self).wf(),
            final(self).topology == old(self).topology,
            final(self).min_d == old(self).min_d,
            final(self).track_huu == old(self).track_huu,
            final(self).lock_us@ == Seq::<u32>::empty(),
            ({
                let s = settled(
                    old(self).graph().n,
                    old(self).min_d,
                    (Drift { x: old(x)@, draws: old(self).draws }),
                );
                &&& final(x)@ == s.x
                &&& final(self).draws == s.draws
            }),
            final(x).len() == old(x).len(),
            final(self).field.g@ == old(self).graph().gradients(final(x)@),
            final(self).field.active@ == old(self).graph().active_pairs(final(x)@),
            old(self).track_huu ==> final(self).field.huu@ == diagonals(
                final(self).field.active@,
                old(self).graph().n,
            ) && peak(final(self).field.huu@, final(self).max_h),
            !old(self).track_huu ==> final(self).field.huu@ == old(self).field.huu@
                && final(self).max_h == old(self).max_h,
    {
        let n: usize = self.topology.n;
        let eps: Binary32 = Binary32::from_bits(DISP_EPS_SQ);
        let ghost graph = self.graph();
        let ghost start = Drift { x: x@, draws: self.draws };
        let ghost mut left: nat = rounds(n as nat, self.min_d, start);
        let mut searching: bool = true;
        while searching
            invariant
                n == self.topology.n,
                n < 0xffff,
                eps == lit(DISP_EPS_SQ),
                graph == self.graph(),
                self.topology == old(self).topology,
                self.topology.wf(),
                self.min_d == old(self).min_d,
                self.track_huu == old(self).track_huu,
                self.max_h == old(self).max_h,
                self.field.shaped(n as nat),
                nodes_in_range(self.lock_us@, n as nat),
                2 * n <= x.len(),
                x.len() == old(x).len(),
                searching ==> {
                    let now = Drift { x: x@, draws: self.draws };
                    &&& ends(n as nat, self.min_d, now)
                    &&& rounds(n as nat, self.min_d, now) == left
                    &&& settled(n as nat, self.min_d, now) == settled(n as nat, self.min_d, start)
                },
                !searching ==> {
                    &&& (Drift { x: x@, draws: self.draws }) == settled(
                        n as nat,
                        self.min_d,
                        start,
                    )
                    &&& self.field.g@ == graph.gradients(x@)
                    &&& self.field.active@ == graph.active_pairs(x@)
                    &&& self.track_huu ==> self.field.huu@ == diagonals(
                        graph.active_pairs(x@),
                        n as nat,
                    )
                },
                !self.track_huu ==> self.field.huu@ == old(self).field.huu@,
            decreases
                left,
                if searching {
                    1int
                } else {
                    0int
                },
        {
            let min_d2: Binary32 = self.topology.sweep(x, self.track_huu, &mut self.field);
            proof {
                lemma_separated(n as nat, x@, min_d2);
            }
            let ghost now = Drift { x: x@, draws: self.draws };
            if eps.lt(min_d2) {
                proof {
                    lemma_settled_here(n as nat, self.min_d, now);
                }
                searching = false;
            } else {
                let moved: bool = apply_displacements(n, self.min_d, &mut self.draws, x);
                proof {
                    if moved {
                        law_settled(n as nat, self.min_d, now);
                        lemma_settled_next(n as nat, self.min_d, now);
                        left = (left - 1) as nat;
                    } else {
                        lemma_stays(n as nat, now.x, self.min_d, now, n as nat);
                        lemma_settled_here(n as nat, self.min_d, now);
                    }
                }
                searching = moved;
            }
        }
        self.lock_us.clear();
        if self.track_huu {
            self.max_h = greatest(&self.field.huu);
        }
        proof {
            lemma_active_pairs_in_range(graph, x@);
        }
    }
}

impl Engine {
    /// The squared length of the gradient.
    fn gradient_length(&self) -> (r: Binary32)
        requires
            self.wf(),
        ensures
            r == squared_length(self.field.g@, self.topology.n as nat),
    {
        let n2: usize = 2 * self.topology.n;
        let chunks: usize = n2 / 4;
        let ghost g = self.field.g@;
        let mut l0: Binary32 = Binary32::from_bits(0);
        let mut l1: Binary32 = Binary32::from_bits(0);
        let mut l2: Binary32 = Binary32::from_bits(0);
        let mut l3: Binary32 = Binary32::from_bits(0);
        let mut c: usize = 0;
        while c < chunks
            invariant
                c <= chunks,
                4 * chunks <= n2 == self.field.g.len(),
                n2 < 0x1_fffe,
                g == self.field.g@,
                l0 == lane_square_sum(g, 0, c as nat),
                l1 == lane_square_sum(g, 1, c as nat),
                l2 == lane_square_sum(g, 2, c as nat),
                l3 == lane_square_sum(g, 3, c as nat),
            decreases chunks - c,
        {
            let e0: Binary32 = self.field.g[4 * c];
            let e1: Binary32 = self.field.g[4 * c + 1];
            let e2: Binary32 = self.field.g[4 * c + 2];
            let e3: Binary32 = self.field.g[4 * c + 3];
            l0 = l0 + e0 * e0;
            l1 = l1 + e1 * e1;
            l2 = l2 + e2 * e2;
            l3 = l3 + e3 * e3;
            c = c + 1;
        }
        let mut sum: Binary32 = l0 + l1 + l2 + l3;
        let mut i: usize = 4 * chunks;
        assert(sum == square_sum(g, chunks as nat, i as nat));
        while i < n2
            invariant
                4 * chunks <= i <= n2 == self.field.g.len(),
                g == self.field.g@,
                sum == square_sum(g, chunks as nat, i as nat),
            decreases n2 - i,
        {
            let e: Binary32 = self.field.g[i];
            sum = sum + e * e;
            i = i + 1;
        }
        sum
    }

    /// The quadratic form of the Hessian at the gradient.
    fn gradient_form(&self) -> (r: Binary32)
        requires
            self.wf(),
        ensures
            r == hessian_form(
                self.field.g@,
                self.topology.n as nat,
                self.field.active@,
                self.lock_us@,
                self.max_h,
            ),
    {
        let n: usize = self.topology.n;
        let ghost g = self.field.g@;
        let ghost pairs = self.field.active@;
        let mut den: Binary32 = Binary32::from_bits(0);
        let mut k: usize = 0;
        while k < self.field.active.len()
            invariant
                self.wf(),
                n == self.topology.n,
                g == self.field.g@,
                pairs == self.field.active@,
                k <= pairs.len(),
                den == pair_sum(pairs, g, n as nat, k as nat),
            decreases pairs.len() - k,
        {
            let p: ActivePair = self.field.active[k];
            assert(p == pairs[k as int]);
            let u: usize = p.u as usize;
            let v: usize = p.v as usize;
            let dgx: Binary32 = self.field.g[u] - self.field.g[v];
            let dgy: Binary32 = self.field.g[n + u] - self.field.g[n + v];
            den = den + (p.idk_x * dgx * dgx + p.idk_y * dgy * dgy);
            k = k + 1;
        }
        let start: Binary32 = den.neg();
        let mut form: Binary32 = start;
        let mut k: usize = 0;
        while k < self.lock_us.len()
            invariant
                self.wf(),
                n == self.topology.n,
                g == self.field.g@,
                k <= self.lock_us.len(),
                form == locked_form(start, self.lock_us@, g, n as nat, self.max_h, k as nat),
            decreases self.lock_us.len() - k,
        {
            let u: usize = self.lock_us[k] as usize;
            assert(self.lock_us@[k as int] < n);
            let gx: Binary32 = self.field.g[u];
            let gy: Binary32 = self.field.g[n + u];
            form = form + self.max_h * (gx * gx + gy * gy);
            k = k + 1;
        }
        form
    }

    /// The step size for the current gradient, active pairs and soft locks.
    pub fn compute_step_size(&self) -> (r: Binary32)
        requires
            self.wf(),
        ensures
            r == step_size(
                self.field.g@,
                self.topology.n as nat,
                self.field.active@,
                self.lock_us@,
                self.max_h,
            ),
    {
        let zero: Binary32 = Binary32::from_bits(0);
        let numerator: Binary32 = self.gradient_length();
        let denominator: Binary32 = self.gradient_form();
        if denominator.equals(zero) || !denominator.is_finite() {
            return zero;
        }
        numerator / denominator
    }

    /// Adds a soft lock: a spring from the position `x_u` of node `u` to `p`, as stiff as the
    /// greatest entry of the diagonal of the Hessian.
    pub fn apply_lock(&mut self, u: usize, p: (Binary32, Binary32), x_u: (Binary32, Binary32))
        requires
            old(self).wf(),
            u < old(self).topology.n,
        ensures
            final(self).wf(),
            final(self).topology == old(self).topology,
            final(self).field.g@ == old(self).field.g@.update(
                u as int,
                old(self).field.g@[u as int].minus(old(self).max_h.times(p.0.minus(x_u.0))),
            ).update(
                old(self).topology.n + u,
                old(self).field.g@[old(self).topology.n + u].minus(
                    old(self).max_h.times(p.1.minus(x_u.1)),
                ),
            ),
            final(self).lock_us@ == old(self).lock_us@.push(u as u32),
            final(self).field.huu@ == old(self).field.huu@,
            final(self).field.active@ == old(self).field.active@,
            final(self).track_huu == old(self).track_huu,
            final(self).max_h == old(self).max_h,
            final(self).draws == old(self).draws,
            final(self).min_d == old(self).min_d,
    {
        let n: usize = self.topology.n;
        let gx: Binary32 = self.field.g[u] - self.max_h * (p.0 - x_u.0);
        let gy: Binary32 = self.field.g[n + u] - self.max_h * (p.1 - x_u.1);
        self.field.g.set(u, gx);
        self.field.g.set(n + u, gy);
        self.lock_us.push(u as u32);
    }

    /// Computes the gradient at `x0`, displacing coincident nodes there, and gives the positions one
    /// step further, with the locks in place.
    pub fn descend_into(&mut self, locks: &Vec<Lock>, x0: &mut Vec<Binary32>) -> (r: Vec<Binary32>)
        requires
            old(self).wf(),
            old(x0).len() == 2 * old(self).topology.n,
            ends(
                old(self).graph().n,
                old(self).min_d,
                (Drift { x: old(x0)@, draws: old(self).draws }),
            ),
            locks_in_range(locks@, old(self).topology.n as nat),
        ensures
            final(self).wf(),
            final(self).topology == old(self).topology,
            final(self).min_d == old(self).min_d,
            final(self).track_huu == old(self).track_huu,
            old(self).track_huu ==> final(self).field.huu@ == diagonals(
                final(self).field.active@,
                old(self).graph().n,
            ) && peak(final(self).field.huu@, final(self).max_h),
            !old(self).track_huu ==> final(self).field.huu@ == old(self).field.huu@
                && final(self).max_h == old(self).max_h,
            final(self).lock_us@ == Seq::<u32>::empty(),
            ({
                let s = settled(
                    old(self).graph().n,
                    old(self).min_d,
                    (Drift { x: old(x0)@, draws: old(self).draws }),
                );
                &&& final(x0)@ == s.x
                &&& final(self).draws == s.draws
            }),
            final(x0).len() == old(x0).len(),
            final(self).field.g@ == old(self).graph().gradients(final(x0)@),
            final(self).field.active@ == old(self).graph().active_pairs(final(x0)@),
            r@ == descended(old(self).graph(), locks@, final(x0)@),
            r.len() == old(x0).len(),
    {
        self.compute(x0);
        let mut r: Vec<Binary32> = self.step_from(x0, Ghost(x0@));
        pin(self.topology.n, locks, &mut r);
        r
    }

    /// The positions `x` one step against the current gradient.
    pub(crate) fn step_from(&self, x: &Vec<Binary32>, Ghost(at): Ghost<Seq<Binary32>>) -> (r: Vec<
        Binary32,
    >)
        requires
            self.wf(),
            x.len() == 2 * self.topology.n,
            self.lock_us@ == Seq::<u32>::empty(),
            self.field.g@ == self.graph().gradients(at),
            self.field.active@ == self.graph().active_pairs(at),
        ensures
            r@ == stepped(self.graph(), x@, at),
    {
        let alpha: Binary32 = self.compute_step_size();
        assert(alpha == step_at(self.graph(), at));
        let mut r: Vec<Binary32> = Vec::new();
        let mut i: usize = 0;
        while i < x.len()
            invariant
                self.wf(),
                i <= x.len() == self.field.g.len(),
                alpha == step_at(self.graph(), at),
                self.field.g@ == self.graph().gradients(at),
                x.len() == 2 * self.topology.n,
                r@ == stepped(self.graph(), x@, at).take(i as int),
            decreases x.len() - i,
        {
            let e: Binary32 = x[i] - alpha * self.field.g[i];
            r.push(e);
            assert(r@ =~= stepped(self.graph(), x@, at).take(i + 1));
            i = i + 1;
        }
        assert(stepped(self.graph(), x@, at).take(i as int) =~= stepped(self.graph(), x@, at));
        r
    }
}

impl Engine {
    /// An engine in the same state.
    pub fn copy(&self) -> (e: Engine)
        requires
            self.wf(),
        ensures
            e.wf(),
            e.graph() == self.graph(),
            e.field.g@ == self.field.g@,
            e.field.huu@ == self.field.huu@,
            e.field.active@ == self.field.active@,
            e.track_huu == self.track_huu,
            e.max_h == self.max_h,
            e.lock_us@ == self.lock_us@,
            e.draws == self.draws,
            e.min_d == self.min_d,
    {
        let e: Engine = Engine {
            topology: self.topology.copy(),
            field: self.field.copy(),
            track_huu: self.track_huu,
            max_h: self.max_h,
            lock_us: self.lock_us.clone(),
            draws: self.draws,
            min_d: self.min_d,
        };
        assert(e.lock_us@ =~= self.lock_us@);
        e
    }

    /// Whether displacing the nodes that coincide at the positions `x` ends.
    pub fn can_compute(&self, x: &Vec<Binary32>) -> (r: bool)
        requires
            self.wf(),
            2 * self.topology.n <= x.len(),
        ensures
            r == ends(self.graph().n, self.min_d, (Drift { x: x@, draws: self.draws })),
    {
        settles(self.topology.n, self.min_d, self.draws, x)
    }
}

/// Puts locked nodes where they are held. Locks are hard pins: the later of two locks of one node
/// decides.
pub fn pin(n: usize, locks: &Vec<Lock>, buf: &mut Vec<Binary32>)
    requires
        n < 0xffff,
        old(buf).len() == 2 * n,
        locks_in_range(locks@, n as nat),
    ensures
        final(buf)@ == pinned(old(buf)@, n as nat, locks@, locks@.len()),
        final(buf).len() == old(buf).len(),
{
    let mut k: usize = 0;
    while k < locks.len()
        invariant
            n < 0xffff,
            k <= locks.len(),
            buf.len() == 2 * n,
            locks_in_range(locks@, n as nat),
            buf@ == pinned(old(buf)@, n as nat, locks@, k as nat),
        decreases locks.len() - k,
    {
        let l: Lock = locks[k];
        assert(locked_node(locks@[k as int]) < n);
        let node: usize = l.node.trunc_u32() as usize;
        buf.set(node, l.x);
        buf.set(n + node, l.y);
        k = k + 1;
    }
}

} // verus!
