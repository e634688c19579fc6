//! How positions move: displacements of coincident nodes, the step size, and the integrator.
use crate::binary32::{lit, Binary32};
use crate::model::{dist2, separated, ActivePair, Graph, DISP_EPS, SIX, TWO};
use crate::sampling::{offset_of, raw_draw, ONE};
use vstd::prelude::*;

verus! {

/// A node that is held at a position. The node is given as a number whose integer part is its
/// index.
#[derive(Clone, Copy, Debug)]
pub struct Lock {
    pub node: Binary32,
    pub x: Binary32,
    pub y: Binary32,
}

/// Positions, and how many outputs were taken from the generator of displacements.
#[verifier::ext_equal]
pub struct Drift {
    pub x: Seq<Binary32>,
    pub draws: u64,
}

/// Whether the node `v` is displaced away from `u`: it is another node, and the two coincide.
pub open spec fn touching(n: nat, x: Seq<Binary32>, u: int, v: int) -> bool {
    u != v && !lit(DISP_EPS).less(dist2(n, x, u, v).root())
}

/// Whether some node is displaced.
pub open spec fn crowded(n: nat, x: Seq<Binary32>) -> bool {
    exists|u: int, v: int| 0 <= u < n && 0 <= v < n && #[trigger] touching(n, x, u, v)
}

/// The node `v` moved by the next offset.
pub open spec fn nudged(n: nat, min_d: Binary32, d: Drift, v: int) -> Drift {
    let (ox, oy) = offset_of(min_d, raw_draw(d.draws), raw_draw(d.draws.wrapping_add(1)));
    Drift {
        x: d.x.update(v, d.x[v].plus(ox)).update(n + v, d.x[n + v].plus(oy)),
        draws: d.draws.wrapping_add(2),
    }
}

/// The nodes before `end` that coincide with `u` displaced in turn. Which nodes coincide is read
/// from `seen`, the positions before any displacement.
pub open spec fn drifted_row(
    n: nat,
    seen: Seq<Binary32>,
    min_d: Binary32,
    d: Drift,
    u: int,
    end: nat,
) -> Drift
    decreases end,
{
    if end == 0 {
        d
    } else {
        let before = drifted_row(n, seen, min_d, d, u, (end - 1) as nat);
        if touching(n, seen, u, end - 1) {
            nudged(n, min_d, before, end - 1)
        } else {
            before
        }
    }
}

/// The displacements away from each of the first `r` nodes in turn.
pub open spec fn drifted(
    n: nat,
    seen: Seq<Binary32>,
    min_d: Binary32,
    d: Drift,
    r: nat,
) -> Drift
    decreases r,
{
    if r == 0 {
        d
    } else {
        drifted_row(n, seen, min_d, drifted(n, seen, min_d, d, (r - 1) as nat), r - 1, n)
    }
}

/// One round of displacements.
pub open spec fn displaced(n: nat, min_d: Binary32, d: Drift) -> Drift {
    drifted(n, d.x, min_d, d, n)
}

/// The given number of rounds of displacements, whatever the positions.
pub open spec fn displaced_times(n: nat, min_d: Binary32, d: Drift, rounds: nat) -> Drift
    decreases rounds,
{
    if rounds == 0 {
        d
    } else {
        displaced_times(n, min_d, displaced(n, min_d, d), (rounds - 1) as nat)
    }
}

/// Whether displacing ends at the positions `x`: no two nodes coincide, or none is displaced.
pub open spec fn ended(n: nat, x: Seq<Binary32>) -> bool {
    separated(n, x) || !crowded(n, x)
}

/// Whether displacing ends after some number of rounds. It does wherever offsets move the nodes that
/// coincide; it does not where the coordinates are so large that they absorb every offset.
pub open spec fn ends(n: nat, min_d: Binary32, d: Drift) -> bool {
    exists|k: nat| ended(n, (#[trigger] displaced_times(n, min_d, d, k)).x)
}

/// Whether displacing ends after just `k` rounds.
pub open spec fn ends_after(n: nat, min_d: Binary32, d: Drift, k: nat) -> bool {
    &&& ended(n, displaced_times(n, min_d, d, k).x)
    &&& forall|j: nat| j < k ==> !ended(n, (#[trigger] displaced_times(n, min_d, d, j)).x)
}

/// The number of rounds after which displacing ends.
pub open spec fn rounds(n: nat, min_d: Binary32, d: Drift) -> nat {
    choose|k: nat| ends_after(n, min_d, d, k)
}

/// Where displacing ends.
pub open spec fn settled(n: nat, min_d: Binary32, d: Drift) -> Drift {
    displaced_times(n, min_d, d, rounds(n, min_d, d))
}

/// The sum of the squares of every fourth entry, the first being `lane`, in the first `c` groups of
/// four.
pub open spec fn lane_square_sum(g: Seq<Binary32>, lane: int, c: nat) -> Binary32
    decreases c,
{
    if c == 0 {
        lit(0)
    } else {
        let e = g[4 * (c - 1) + lane];
        lane_square_sum(g, lane, (c - 1) as nat).plus(e.times(e))
    }
}

/// The sum of squares over whole groups of four entries: each lane by itself, then the lanes.
pub open spec fn group_square_sum(g: Seq<Binary32>, c: nat) -> Binary32 {
    lane_square_sum(g, 0, c).plus(lane_square_sum(g, 1, c)).plus(lane_square_sum(g, 2, c)).plus(
        lane_square_sum(g, 3, c),
    )
}

/// The sum of squares of the entries before `end`, of which the first `4 * c` are in groups.
pub open spec fn square_sum(g: Seq<Binary32>, c: nat, end: nat) -> Binary32
    decreases end,
{
    if end <= 4 * c {
        group_square_sum(g, c)
    } else {
        let e = g[end - 1];
        square_sum(g, c, (end - 1) as nat).plus(e.times(e))
    }
}

/// The squared length of the gradient of `n` nodes.
pub open spec fn squared_length(g: Seq<Binary32>, n: nat) -> Binary32 {
    square_sum(g, (2 * n) / 4, 2 * n)
}

/// What an active pair contributes to the quadratic form of the gradient.
pub open spec fn pair_term(p: ActivePair, g: Seq<Binary32>, n: nat) -> Binary32 {
    let dgx = g[p.u as int].minus(g[p.v as int]);
    let dgy = g[n + p.u].minus(g[n + p.v]);
    p.idk_x.times(dgx).times(dgx).plus(p.idk_y.times(dgy).times(dgy))
}

/// The contributions of the first `k` active pairs.
pub open spec fn pair_sum(pairs: Seq<ActivePair>, g: Seq<Binary32>, n: nat, k: nat) -> Binary32
    decreases k,
{
    if k == 0 {
        lit(0)
    } else {
        pair_sum(pairs, g, n, (k - 1) as nat).plus(pair_term(pairs[k - 1], g, n))
    }
}

/// The quadratic form with the contributions of the first `k` soft locks.
pub open spec fn locked_form(
    form: Binary32,
    lock_us: Seq<u32>,
    g: Seq<Binary32>,
    n: nat,
    max_h: Binary32,
    k: nat,
) -> Binary32
    decreases k,
{
    if k == 0 {
        form
    } else {
        let u = lock_us[k - 1] as int;
        locked_form(form, lock_us, g, n, max_h, (k - 1) as nat).plus(
            max_h.times(g[u].times(g[u]).plus(g[n + u].times(g[n + u]))),
        )
    }
}

/// The quadratic form of the Hessian at the gradient. The Hessian is a weighted Laplacian, so the
/// form is minus the sum over the active pairs.
pub open spec fn hessian_form(
    g: Seq<Binary32>,
    n: nat,
    pairs: Seq<ActivePair>,
    lock_us: Seq<u32>,
    max_h: Binary32,
) -> Binary32 {
    locked_form(
        pair_sum(pairs, g, n, pairs.len()).negated(),
        lock_us,
        g,
        n,
        max_h,
        lock_us.len(),
    )
}

/// The step along the gradient: its squared length over the quadratic form, and zero where that is
/// zero or not finite.
pub open spec fn step_size(
    g: Seq<Binary32>,
    n: nat,
    pairs: Seq<ActivePair>,
    lock_us: Seq<u32>,
    max_h: Binary32,
) -> Binary32 {
    let form = hessian_form(g, n, pairs, lock_us, max_h);
    if form.same(lit(0)) || !form.finite() {
        lit(0)
    } else {
        squared_length(g, n).over(form)
    }
}

/// The index of the node that a lock holds.
pub open spec fn locked_node(l: Lock) -> int {
    l.node.whole() as int
}

/// Whether all locks hold one of `n` nodes.
pub open spec fn locks_in_range(locks: Seq<Lock>, n: nat) -> bool {
    forall|k: int| 0 <= k < locks.len() ==> locked_node(#[trigger] locks[k]) < n
}

/// Positions with the nodes of the first `k` locks put where they are held.
pub open spec fn pinned(x: Seq<Binary32>, n: nat, locks: Seq<Lock>, k: nat) -> Seq<Binary32>
    decreases k,
{
    if k == 0 {
        x
    } else {
        let l = locks[k - 1];
        pinned(x, n, locks, (k - 1) as nat).update(locked_node(l), l.x).update(
            n + locked_node(l),
            l.y,
        )
    }
}

/// The step size for the gradient and the active pairs at the positions `x`, without soft locks.
pub open spec fn step_at(graph: Graph, x: Seq<Binary32>) -> Binary32 {
    step_size(graph.gradients(x), graph.n, graph.active_pairs(x), Seq::empty(), lit(0))
}

/// Positions moved against the gradient, entry by entry.
pub open spec fn stepped(graph: Graph, from: Seq<Binary32>, at: Seq<Binary32>) -> Seq<Binary32> {
    Seq::new(
        2 * graph.n,
        |i: int| from[i].minus(step_at(graph, at).times(graph.gradients(at)[i])),
    )
}

/// One descent: a step against the gradient, after which the locks are put back.
pub open spec fn descended(graph: Graph, locks: Seq<Lock>, x: Seq<Binary32>) -> Seq<Binary32> {
    pinned(stepped(graph, x, x), graph.n, locks, locks.len())
}

/// The positions half way from `x` to `a`.
pub open spec fn midway(x: Seq<Binary32>, a: Seq<Binary32>, len: nat) -> Seq<Binary32> {
    Seq::new(len, |i: int| x[i].plus(a[i].minus(x[i]).over(lit(TWO))))
}

/// The weighted mean of the four stages of the classical Runge-Kutta scheme.
pub open spec fn blended(
    a: Seq<Binary32>,
    b: Seq<Binary32>,
    c: Seq<Binary32>,
    d: Seq<Binary32>,
    len: nat,
) -> Seq<Binary32> {
    Seq::new(
        len,
        |i: int|
            a[i].plus(lit(TWO).times(b[i])).plus(lit(TWO).times(c[i])).plus(d[i]).over(lit(SIX)),
    )
}

/// The sum of the squared differences of the first `k` entries.
pub open spec fn moved(from: Seq<Binary32>, to: Seq<Binary32>, k: nat) -> Binary32
    decreases k,
{
    if k == 0 {
        lit(0)
    } else {
        let e = from[k - 1].minus(to[k - 1]);
        moved(from, to, (k - 1) as nat).plus(e.times(e))
    }
}

/// The sum of the squares of the first `k` entries.
pub open spec fn squares(steps: Seq<Binary32>, k: nat) -> Binary32
    decreases k,
{
    if k == 0 {
        lit(0)
    } else {
        squares(steps, (k - 1) as nat).plus(steps[k - 1].times(steps[k - 1]))
    }
}

/// What the integrator moves in: the graph, the length of displacements and the locks.
pub struct World {
    pub graph: Graph,
    pub min_d: Binary32,
    pub locks: Seq<Lock>,
}

/// The outcome of integrator steps.
#[verifier::ext_equal]
pub struct Tick {
    /// The positions after the step.
    pub x: Seq<Binary32>,
    /// How many outputs were taken from the generator of displacements.
    pub draws: u64,
    /// The positions at which the last gradient was taken.
    pub at: Seq<Binary32>,
    /// How far the positions moved.
    pub disp: Binary32,
}

impl World {
    /// The positions and the generator after the coincident nodes were displaced.
    pub open spec fn settle(self, x: Seq<Binary32>, draws: u64) -> Drift {
        settled(self.graph.n, self.min_d, Drift { x, draws })
    }

    /// Whether displacing the coincident nodes ends.
    pub open spec fn ends(self, x: Seq<Binary32>, draws: u64) -> bool {
        ends(self.graph.n, self.min_d, Drift { x, draws })
    }

    /// A step of the classical Runge-Kutta scheme.
    pub open spec fn runge_kutta(self, x: Seq<Binary32>, draws: u64) -> Tick {
        let len = 2 * self.graph.n;
        let s1 = self.settle(x, draws);
        let a = descended(self.graph, self.locks, s1.x);
        let s2 = self.settle(midway(s1.x, a, len), s1.draws);
        let b = descended(self.graph, self.locks, s2.x);
        let s3 = self.settle(midway(s1.x, b, len), s2.draws);
        let s4 = self.settle(descended(self.graph, self.locks, s3.x), s3.draws);
        let d = descended(self.graph, self.locks, s4.x);
        let to = blended(a, b, s4.x, d, len);
        Tick { x: to, draws: s4.draws, at: s4.x, disp: moved(s1.x, to, len) }
    }

    /// A step of the midpoint scheme.
    pub open spec fn midpoint(self, x: Seq<Binary32>, draws: u64) -> Tick {
        let len = 2 * self.graph.n;
        let s1 = self.settle(x, draws);
        let a = descended(self.graph, self.locks, s1.x);
        let s2 = self.settle(midway(s1.x, a, len), s1.draws);
        let to = stepped(self.graph, s1.x, s2.x);
        Tick {
            x: pinned(to, self.graph.n, self.locks, self.locks.len()),
            draws: s2.draws,
            at: s2.x,
            disp: moved(s1.x, to, len),
        }
    }

    /// A step of plain gradient descent.
    pub open spec fn gradient_descent(self, x: Seq<Binary32>, draws: u64) -> Tick {
        let len = 2 * self.graph.n;
        let s1 = self.settle(x, draws);
        let steps = Seq::new(
            len,
            |i: int| step_at(self.graph, s1.x).times(self.graph.gradients(s1.x)[i]),
        );
        Tick {
            x: descended(self.graph, self.locks, s1.x),
            draws: s1.draws,
            at: s1.x,
            disp: squares(steps, len),
        }
    }

    /// A step of the integrator: the locks are put in place, then the scheme of the mode is
    /// applied.
    pub open spec fn tick(self, x: Seq<Binary32>, draws: u64, mode: u32) -> Tick {
        let start = pinned(x, self.graph.n, self.locks, self.locks.len());
        if mode == 0 {
            self.runge_kutta(start, draws)
        } else if mode == 1 {
            self.midpoint(start, draws)
        } else {
            self.gradient_descent(start, draws)
        }
    }

    /// Whether displacing ends at every stage of the scheme of a mode.
    pub open spec fn scheme_ends(self, x: Seq<Binary32>, draws: u64, mode: u32) -> bool {
        let len = 2 * self.graph.n;
        let s1 = self.settle(x, draws);
        let a = descended(self.graph, self.locks, s1.x);
        let ia = midway(s1.x, a, len);
        &&& self.ends(x, draws)
        &&& mode == 0 || mode == 1 ==> self.ends(ia, s1.draws)
        &&& mode == 0 ==> {
            let s2 = self.settle(ia, s1.draws);
            let b = descended(self.graph, self.locks, s2.x);
            let ib = midway(s1.x, b, len);
            let s3 = self.settle(ib, s2.draws);
            let c = descended(self.graph, self.locks, s3.x);
            self.ends(ib, s2.draws) && self.ends(c, s3.draws)
        }
    }

    /// Whether displacing ends at every stage of a step.
    pub open spec fn tick_ends(self, x: Seq<Binary32>, draws: u64, mode: u32) -> bool {
        self.scheme_ends(pinned(x, self.graph.n, self.locks, self.locks.len()), draws, mode)
    }

    /// Whether displacing ends at every stage of every step of a run.
    pub open spec fn run_ends(
        self,
        x: Seq<Binary32>,
        draws: u64,
        mode: u32,
        threshold: Binary32,
        stress: Binary32,
        left: nat,
    ) -> bool
        decreases left,
    {
        let t = self.tick(x, draws, mode);
        left == 0 || {
            &&& self.tick_ends(x, draws, mode)
            &&& converged(stress, t.disp, threshold) || self.run_ends(
                t.x,
                t.draws,
                mode,
                threshold,
                t.disp,
                (left - 1) as nat,
            )
        }
    }

    /// Steps until the movement changes by less than the threshold relative to the step before, and
    /// at most `left` of them.
    pub open spec fn run(
        self,
        x: Seq<Binary32>,
        draws: u64,
        mode: u32,
        threshold: Binary32,
        stress: Binary32,
        left: nat,
    ) -> Tick
        decreases left,
    {
        let t = self.tick(x, draws, mode);
        if left <= 1 || converged(stress, t.disp, threshold) {
            t
        } else {
            self.run(t.x, t.draws, mode, threshold, t.disp, (left - 1) as nat)
        }
    }
}

/// Whether two movements in a row differ by less than the threshold, relative to the second.
pub open spec fn converged(before: Binary32, now: Binary32, threshold: Binary32) -> bool {
    before.over(now).minus(lit(ONE)).unsigned().less(threshold)
}

} // verus!
