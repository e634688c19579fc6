//! The layout context: an engine together with positions and locks, and the integrator.
use crate::binary32::{lit, Binary32};
use crate::engine::{nodes_in_range, pairs_in_range, pin, Engine};
use crate::model::{
    diagonals, displacement_length, graph_of, peak, weighted, ActivePair, Graph, LARGEST, SIX, TWO,
};
use crate::motion::{
    blended, locked_node, locks_in_range, midway, moved, squares, step_at, step_size, stepped, Drift,
    Lock, Tick, World,
};
use crate::sampling::ONE;
use crate::topology::{graph_valid, shortest_distance, Field, Topology};
use crate::weights::covers;
use vstd::prelude::*;

verus! {

/// A two-dimensional layout of a graph in progress.
pub struct FastCtx {
    engine: Engine,
    x: Vec<Binary32>,
    locks: Vec<Lock>,
}

/// What a context holds.
#[verifier::ext_equal]
pub struct State {
    /// The pairs of nodes that forces act between.
    pub graph: Graph,
    /// The length of displacements.
    pub min_d: Binary32,
    /// The positions.
    pub x: Seq<Binary32>,
    /// The gradient that was last computed.
    pub g: Seq<Binary32>,
    /// The diagonal of the Hessian that was last tracked.
    pub huu: Seq<Binary32>,
    /// The pairs that were active when the gradient was last computed.
    pub active: Seq<ActivePair>,
    /// Whether the diagonal of the Hessian is tracked.
    pub track_huu: bool,
    /// The greatest entry of the diagonal, as last tracked.
    pub max_h: Binary32,
    /// The nodes that the integrator holds in place.
    pub locks: Seq<Lock>,
    /// The nodes with a soft lock on the current gradient.
    pub lock_us: Seq<u32>,
    /// How many outputs were taken from the generator of displacements.
    pub draws: u64,
}

impl State {
    /// What holds of the state of every context.
    pub open spec fn valid(self) -> bool {
        &&& graph_valid(self.graph)
        &&& self.x.len() == 2 * self.graph.n
        &&& self.g.len() == 2 * self.graph.n
        &&& self.huu.len() == 2 * self.graph.n
        &&& pairs_in_range(self.active, self.graph.n)
        &&& nodes_in_range(self.lock_us, self.graph.n)
    }

    /// What the integrator moves in.
    pub open spec fn world(self) -> World {
        World { graph: self.graph, min_d: self.min_d, locks: self.locks }
    }

    /// The state after steps of the integrator.
    pub open spec fn after(self, t: Tick) -> State {
        State {
            x: t.x,
            g: self.graph.gradients(t.at),
            active: self.graph.active_pairs(t.at),
            track_huu: false,
            lock_us: Seq::empty(),
            draws: t.draws,
            ..self
        }
    }

    /// Whether displacing the nodes that coincide at the positions `x` ends.
    pub open spec fn ends(self, x: Seq<Binary32>) -> bool {
        self.world().ends(x, self.draws)
    }

    /// Whether displacing ends at every stage of a step of the integrator.
    pub open spec fn tick_ends(self, mode: u32) -> bool {
        self.world().tick_ends(self.x, self.draws, mode)
    }

    /// Whether displacing ends at every stage of a run of the integrator.
    pub open spec fn run_ends(self, iterations: u32, threshold: Binary32, mode: u32) -> bool {
        self.world().run_ends(
            self.x,
            self.draws,
            mode,
            threshold,
            lit(LARGEST),
            iterations as nat,
        )
    }

    /// The positions `x` and the generator after the coincident nodes were displaced.
    pub open spec fn settle(self, x: Seq<Binary32>) -> Drift {
        self.world().settle(x, self.draws)
    }
}

impl View for FastCtx {
    type V = State;

    closed spec fn view(&self) -> State {
        State {
            graph: self.engine.topology@,
            min_d: self.engine.min_d,
            x: self.x@,
            g: self.engine.field.g@,
            huu: self.engine.field.huu@,
            active: self.engine.field.active@,
            track_huu: self.engine.track_huu,
            max_h: self.engine.max_h,
            locks: self.locks@,
            lock_us: self.engine.lock_us@,
            draws: self.engine.draws,
        }
    }
}

/// As many zeros as asked for.
fn zeros(len: usize) -> (r: Vec<Binary32>)
    ensures
        r@ == Seq::new(len as nat, |i: int| lit(0)),
{
    let mut r: Vec<Binary32> = Vec::new();
    let mut i: usize = 0;
    while i < len
        invariant
            i <= len,
            r@ == Seq::new(i as nat, |j: int| lit(0)),
        decreases len - i,
    {
        r.push(Binary32::from_bits(0));
        assert(r@ =~= Seq::new((i + 1) as nat, |j: int| lit(0)));
        i = i + 1;
    }
    r
}

/// The positions half way from `x` to `a`.
fn mid(x: &Vec<Binary32>, a: &Vec<Binary32>) -> (out: Vec<Binary32>)
    requires
        a.len() == x.len(),
    ensures
        out@ == midway(x@, a@, x.len() as nat),
{
    let two: Binary32 = Binary32::from_bits(TWO);
    let mut out: Vec<Binary32> = Vec::new();
    let mut i: usize = 0;
    while i < x.len()
        invariant
            i <= x.len() == a.len(),
            two == lit(TWO),
            out@ == midway(x@, a@, i as nat),
        decreases x.len() - i,
    {
        let xi: Binary32 = x[i];
        out.push(xi + (a[i] - xi) / two);
        assert(out@ =~= midway(x@, a@, (i + 1) as nat));
        i = i + 1;
    }
    out
}

/// The weighted mean of four stages.
fn blend(
    a: &Vec<Binary32>,
    b: &Vec<Binary32>,
    c: &Vec<Binary32>,
    d: &Vec<Binary32>,
) -> (out: Vec<Binary32>)
    requires
        a.len() == b.len() == c.len() == d.len(),
    ensures
        out@ == blended(a@, b@, c@, d@, a.len() as nat),
{
    let two: Binary32 = Binary32::from_bits(TWO);
    let six: Binary32 = Binary32::from_bits(SIX);
    let mut out: Vec<Binary32> = Vec::new();
    let mut i: usize = 0;
    while i < a.len()
        invariant
            i <= a.len(),
            a.len() == b.len() == c.len() == d.len(),
            two == lit(TWO),
            six == lit(SIX),
            out@ == blended(a@, b@, c@, d@, i as nat),
        decreases a.len() - i,
    {
        out.push((a[i] + two * b[i] + two * c[i] + d[i]) / six);
        assert(out@ =~= blended(a@, b@, c@, d@, (i + 1) as nat));
        i = i + 1;
    }
    out
}

/// The sum of the squared differences of positions.
fn movement(from: &Vec<Binary32>, to: &Vec<Binary32>) -> (disp: Binary32)
    requires
        from.len() == to.len(),
    ensures
        disp == moved(from@, to@, from.len() as nat),
{
    let mut disp: Binary32 = Binary32::from_bits(0);
    let mut i: usize = 0;
    while i < from.len()
        invariant
            i <= from.len() == to.len(),
            disp == moved(from@, to@, i as nat),
        decreases from.len() - i,
    {
        let dd: Binary32 = from[i] - to[i];
        disp = disp + dd * dd;
        i = i + 1;
    }
    disp
}

impl FastCtx {
    /// What holds of every context.
    pub closed spec fn wf(&self) -> bool {
        self@.valid() && self.engine.wf()
    }

    /// The state of every context is valid.
    pub proof fn law_state_valid(&self)
        requires
            self.wf(),
        ensures
            self@.valid(),
    {
    }

    /// A context for the graph of a distance matrix of `n` rows, in which finite positive entries
    /// are ideal distances and all others are pairs that are not connected. All nodes are at the
    /// origin. At most 65534 nodes are supported.
    pub fn new(d_mat: Vec<Binary32>, n: usize) -> (ctx: FastCtx)
        requires
            n < 0xffff,
            n * (n - 1) <= d_mat.len(),
        ensures
            ctx.wf(),
            displacement_length(d_mat@, ctx@.min_d),
            ({
                let zeros = Seq::new((2 * n) as nat, |i: int| lit(0));
                ctx@ == State {
                    graph: graph_of(d_mat@, n as nat),
                    min_d: ctx@.min_d,
                    x: zeros,
                    g: zeros,
                    huu: zeros,
                    active: Seq::empty(),
                    track_huu: false,
                    max_h: lit(0),
                    locks: Seq::empty(),
                    lock_us: Seq::empty(),
                    draws: 0,
                }
            }),
    {
        let topology: Topology = Topology::new(&d_mat, n);
        let min_d: Binary32 = shortest_distance(&d_mat);
        let ctx: FastCtx = FastCtx {
            engine: Engine {
                topology,
                field: Field { g: zeros(2 * n), huu: zeros(2 * n), active: Vec::new() },
                track_huu: false,
                max_h: Binary32::from_bits(0),
                lock_us: Vec::new(),
                draws: 0,
                min_d,
            },
            x: zeros(2 * n),
            locks: Vec::new(),
        };
        assert(ctx@.active =~= Seq::<ActivePair>::empty());
        assert(ctx@.lock_us =~= Seq::<u32>::empty());
        assert(ctx@.locks =~= Seq::<Lock>::empty());
        ctx
    }

    /// Sets the weights of the pairs, row by row. Non-empty weights turn p-stress mode on: connected
    /// pairs with weight at most one become edges, everything else is swept with the condition that
    /// it is closer than its ideal distance. Empty weights turn it off: everything connected is
    /// active.
    pub fn set_g(&mut self, g_mat: Vec<Binary32>)
        requires
            old(self).wf(),
            g_mat.len() == 0 || covers(old(self)@.graph, g_mat@),
        ensures
            final(self).wf(),
            final(self)@ == (State { graph: weighted(old(self)@.graph, g_mat@), ..old(self)@ }),
            final(self)@.graph.ideals() == old(self)@.graph.ideals(),
    {
        self.engine.topology.set_g(&g_mat);
        assert(self@ =~= (State { graph: weighted(old(self)@.graph, g_mat@), ..old(self)@ }));
    }

    /// Computes the gradient and the active pairs at the positions `x`. While nodes coincide they
    /// are displaced there first, by offsets of the generator, until none do; that this ends can be
    /// tested with [`FastCtx::can_compute`]. Where the diagonal of the Hessian is tracked, it and its
    /// greatest entry are computed too. Soft locks end.
    pub fn compute(&mut self, x: &mut Vec<Binary32>)
        requires
            old(self).wf(),
            2 * old(self)@.graph.n <= old(x).len(),
            old(self)@.ends(old(x)@),
        ensures
            final(self).wf(),
            final(x)@ == old(self)@.settle(old(x)@).x,
            ({
                let graph = old(self)@.graph;
                let active = graph.active_pairs(final(x)@);
                &&& final(self)@ == State {
                    g: graph.gradients(final(x)@),
                    active,
                    lock_us: Seq::empty(),
                    draws: old(self)@.settle(old(x)@).draws,
                    huu: if old(self)@.track_huu {
                        diagonals(active, graph.n)
                    } else {
                        old(self)@.huu
                    },
                    max_h: final(self)@.max_h,
                    ..old(self)@
                }
                &&& if old(self)@.track_huu {
                    peak(final(self)@.huu, final(self)@.max_h)
                } else {
                    final(self)@.max_h == old(self)@.max_h
                }
            }),
            final(x).len() == old(x).len(),
    {
        self.engine.compute(x);
    }

    /// Adds a soft lock to the current gradient: a spring from the position `x_u` of node `u` to
    /// `p`, as stiff as the greatest entry of the diagonal of the Hessian.
    pub fn apply_lock(&mut self, u: usize, p: [Binary32; 2], x_u: [Binary32; 2])
        requires
            old(self).wf(),
            u < old(self)@.graph.n,
        ensures
            final(self).wf(),
            ({
                let before = old(self)@;
                let n = before.graph.n;
                final(self)@ == State {
                    g: before.g.update(
                        u as int,
                        before.g[u as int].minus(before.max_h.times(p[0].minus(x_u[0]))),
                    ).update(
                        n + u,
                        before.g[n + u].minus(before.max_h.times(p[1].minus(x_u[1]))),
                    ),
                    lock_us: before.lock_us.push(u as u32),
                    ..before
                }
            }),
    {
        self.engine.apply_lock(u, (p[0], p[1]), (x_u[0], x_u[1]));
    }

    /// The step size along the current gradient: its squared length over the quadratic form of the
    /// Hessian with the soft locks, and zero where that form is zero or not finite.
    pub fn compute_step_size(&self) -> (r: Binary32)
        requires
            self.wf(),
        ensures
            r == step_size(
                self@.g,
                self@.graph.n,
                self@.active,
                self@.lock_us,
                self@.max_h,
            ),
    {
        self.engine.compute_step_size()
    }

    /// One step of the integrator; gives how far the positions moved, as the sum of squares. Mode 0
    /// is the classical Runge-Kutta scheme, mode 1 the midpoint scheme, and every other mode plain
    /// gradient descent. That displacing coincident nodes ends can be tested with
    /// [`FastCtx::can_tick`].
    pub fn tick(&mut self, mode: u32) -> (disp: Binary32)
        requires
            old(self).wf(),
            locks_in_range(old(self)@.locks, old(self)@.graph.n),
            old(self)@.tick_ends(mode),
        ensures
            final(self).wf(),
            ({
                let t = old(self)@.world().tick(old(self)@.x, old(self)@.draws, mode);
                &&& final(self)@ == old(self)@.after(t)
                &&& disp == t.disp
            }),
    {
        let n: usize = self.engine.topology.n;
        let ghost before = self@;
        let ghost world = before.world();
        let ghost graph = before.graph;
        self.engine.track_huu = false;
        pin(n, &self.locks, &mut self.x);
        let ghost start = self.x@;
        let ghost t = world.tick(before.x, before.draws, mode);
        if mode == 0 {
            let a: Vec<Binary32> = self.engine.descend_into(&self.locks, &mut self.x);
            let mut ia: Vec<Binary32> = mid(&self.x, &a);
            let b: Vec<Binary32> = self.engine.descend_into(&self.locks, &mut ia);
            let mut ib: Vec<Binary32> = mid(&self.x, &b);
            let mut c: Vec<Binary32> = self.engine.descend_into(&self.locks, &mut ib);
            let d: Vec<Binary32> = self.engine.descend_into(&self.locks, &mut c);
            let nx: Vec<Binary32> = blend(&a, &b, &c, &d);
            let disp: Binary32 = movement(&self.x, &nx);
            self.x = nx;
            assert(t == world.runge_kutta(start, before.draws));
            assert(self@ =~= before.after(t));
            disp
        } else if mode == 1 {
            let a: Vec<Binary32> = self.engine.descend_into(&self.locks, &mut self.x);
            let mut ia: Vec<Binary32> = mid(&self.x, &a);
            self.engine.compute(&mut ia);
            let mut nx: Vec<Binary32> = self.engine.step_from(&self.x, Ghost(ia@));
            let disp: Binary32 = movement(&self.x, &nx);
            pin(n, &self.locks, &mut nx);
            self.x = nx;
            assert(t == world.midpoint(start, before.draws));
            assert(self@ =~= before.after(t));
            disp
        } else {
            self.engine.compute(&mut self.x);
            let ghost at = self.x@;
            let ghost engine = self.engine;
            let ghost locks = self.locks;
            let alpha: Binary32 = self.engine.compute_step_size();
            let ghost steps = Seq::new(
                2 * graph.n,
                |i: int| step_at(graph, at).times(graph.gradients(at)[i]),
            );
            assert(alpha == step_at(graph, at));
            let mut disp: Binary32 = Binary32::from_bits(0);
            let mut i: usize = 0;
            while i < self.x.len()
                invariant
                    i <= self.x.len() == 2 * n,
                    n == graph.n,
                    n < 0xffff,
                    at.len() == 2 * n,
                    self.engine == engine,
                    self.locks == locks,
                    graph == self.engine.topology@,
                    self.engine.wf(),
                    self.engine.field.g@ == graph.gradients(at),
                    alpha == step_at(graph, at),
                    steps == Seq::new(
                        2 * graph.n,
                        |i: int| step_at(graph, at).times(graph.gradients(at)[i]),
                    ),
                    disp == squares(steps, i as nat),
                    forall|j: int|
                        0 <= j < i ==> #[trigger] self.x@[j] == stepped(graph, at, at)[j],
                    forall|j: int| i <= j < 2 * n ==> #[trigger] self.x@[j] == at[j],
                decreases self.x.len() - i,
            {
                let dd: Binary32 = alpha * self.engine.field.g[i];
                assert(dd == steps[i as int]);
                disp = disp + dd * dd;
                let e: Binary32 = self.x[i] - dd;
                self.x.set(i, e);
                i = i + 1;
            }
            assert(self.x@ =~= stepped(graph, at, at));
            pin(n, &self.locks, &mut self.x);
            assert(t == world.gradient_descent(start, before.draws));
            assert(self@ =~= before.after(t));
            disp
        }
    }

    /// Steps of the integrator, at most `iterations`, until the movement changes by less than
    /// `threshold` relative to the step before. Gives the movement of the last step, and the largest
    /// finite number where there is none. That displacing coincident nodes ends can be tested with
    /// [`FastCtx::can_run`].
    pub fn run(&mut self, iterations: u32, threshold: Binary32, mode: u32) -> (r: Binary32)
        requires
            old(self).wf(),
            iterations > 0 ==> locks_in_range(old(self)@.locks, old(self)@.graph.n),
            old(self)@.run_ends(iterations, threshold, mode),
        ensures
            final(self).wf(),
            iterations == 0 ==> final(self)@ == old(self)@ && r == lit(LARGEST),
            iterations > 0 ==> {
                let t = old(self)@.world().run(
                    old(self)@.x,
                    old(self)@.draws,
                    mode,
                    threshold,
                    lit(LARGEST),
                    iterations as nat,
                );
                &&& final(self)@ == old(self)@.after(t)
                &&& r == t.disp
            },
    {
        let one: Binary32 = Binary32::from_bits(ONE);
        let mut stress: Binary32 = Binary32::from_bits(LARGEST);
        let ghost before = self@;
        let ghost world = before.world();
        let ghost goal = world.run(
            before.x,
            before.draws,
            mode,
            threshold,
            lit(LARGEST),
            iterations as nat,
        );
        let mut left: u32 = iterations;
        while left > 0
            invariant
                self.wf(),
                one == lit(ONE),
                left <= iterations,
                world == before.world(),
                world == self@.world(),
                before == old(self)@,
                iterations > 0 ==> locks_in_range(self@.locks, self@.graph.n),
                goal == world.run(
                    before.x,
                    before.draws,
                    mode,
                    threshold,
                    lit(LARGEST),
                    iterations as nat,
                ),
                left > 0 ==> goal == world.run(
                    self@.x,
                    self@.draws,
                    mode,
                    threshold,
                    stress,
                    left as nat,
                ),
                world.run_ends(self@.x, self@.draws, mode, threshold, stress, left as nat),
                left == iterations ==> self@ == before && stress == lit(LARGEST),
                self@.huu == before.huu,
                self@.max_h == before.max_h,
                left == 0 && iterations > 0 ==> self@ == before.after(goal) && stress == goal.disp,
            decreases left,
        {
            let ghost t = world.tick(self@.x, self@.draws, mode);
            let s: Binary32 = self.tick(mode);
            assert(self@ =~= before.after(t));
            if (stress / s - one).abs().lt(threshold) {
                return s;
            }
            stress = s;
            left = left - 1;
        }
        stress
    }

    /// A context in the same state.
    fn copy(&self) -> (c: FastCtx)
        requires
            self.wf(),
        ensures
            c.wf(),
            c@ == self@,
    {
        let c: FastCtx = FastCtx {
            engine: self.engine.copy(),
            x: self.x.clone(),
            locks: self.locks.clone(),
        };
        assert(c.x@ =~= self.x@);
        assert(c.locks@ =~= self.locks@);
        c
    }

    /// Whether the gradient at the positions `x` can be computed: displacing the nodes that coincide
    /// there ends.
    pub fn can_compute(&self, x: &Vec<Binary32>) -> (r: bool)
        requires
            self.wf(),
            2 * self@.graph.n <= x.len(),
        ensures
            r == self@.ends(x@),
    {
        self.engine.can_compute(x)
    }

    /// Whether a step can be made: displacing ends at every stage of it. The stages are tried on a
    /// copy.
    pub fn can_tick(&self, mode: u32) -> (r: bool)
        requires
            self.wf(),
            locks_in_range(self@.locks, self@.graph.n),
        ensures
            r == self@.tick_ends(mode),
    {
        let mut trial: FastCtx = self.copy();
        pin(trial.engine.topology.n, &trial.locks, &mut trial.x);
        if !trial.engine.can_compute(&trial.x) {
            return false;
        }
        if mode != 0 && mode != 1 {
            return true;
        }
        let a: Vec<Binary32> = trial.engine.descend_into(&trial.locks, &mut trial.x);
        let mut ia: Vec<Binary32> = mid(&trial.x, &a);
        if !trial.engine.can_compute(&ia) {
            return false;
        }
        if mode == 1 {
            return true;
        }
        let b: Vec<Binary32> = trial.engine.descend_into(&trial.locks, &mut ia);
        let mut ib: Vec<Binary32> = mid(&trial.x, &b);
        if !trial.engine.can_compute(&ib) {
            return false;
        }
        let c: Vec<Binary32> = trial.engine.descend_into(&trial.locks, &mut ib);
        trial.engine.can_compute(&c)
    }

    /// Whether a run can be made: displacing ends at every stage of its steps. The steps are tried
    /// on a copy.
    pub fn can_run(&self, iterations: u32, threshold: Binary32, mode: u32) -> (r: bool)
        requires
            self.wf(),
            iterations > 0 ==> locks_in_range(self@.locks, self@.graph.n),
        ensures
            r == self@.run_ends(iterations, threshold, mode),
    {
        let one: Binary32 = Binary32::from_bits(ONE);
        let ghost world = self@.world();
        let mut trial: FastCtx = self.copy();
        let mut stress: Binary32 = Binary32::from_bits(LARGEST);
        let mut left: u32 = iterations;
        while left > 0
            invariant
                trial.wf(),
                one == lit(ONE),
                world == trial@.world(),
                left > 0 ==> locks_in_range(trial@.locks, trial@.graph.n),
                self@.run_ends(iterations, threshold, mode) == world.run_ends(
                    trial@.x,
                    trial@.draws,
                    mode,
                    threshold,
                    stress,
                    left as nat,
                ),
            decreases left,
        {
            if !trial.can_tick(mode) {
                return false;
            }
            let s: Binary32 = trial.tick(mode);
            if (stress / s - one).abs().lt(threshold) {
                return true;
            }
            stress = s;
            left = left - 1;
        }
        true
    }

    /// The number of nodes.
    pub fn node_count(&self) -> (n: usize)
        ensures
            n == self@.graph.n,
    {
        self.engine.topology.n
    }

    /// Whether weights reach as far as the connected pairs do, so that they can be set.
    pub fn accepts_weights(&self, g_mat: &Vec<Binary32>) -> (r: bool)
        requires
            self.wf(),
        ensures
            r == (g_mat.len() == 0 || covers(self@.graph, g_mat@)),
    {
        g_mat.len() == 0 || self.engine.topology.covered_by(g_mat)
    }

    /// Whether every lock holds a node of the graph, so that the integrator can step.
    pub fn locks_hold_nodes(&self) -> (r: bool)
        ensures
            r == locks_in_range(self@.locks, self@.graph.n),
    {
        let n: usize = self.engine.topology.n;
        let mut k: usize = 0;
        while k < self.locks.len()
            invariant
                k <= self.locks.len(),
                n == self.engine.topology.n,
                forall|j: int| 0 <= j < k ==> locked_node(#[trigger] self.locks@[j]) < n,
            decreases self.locks.len() - k,
        {
            let l: Lock = self.locks[k];
            assert(l == self.locks@[k as int]);
            if l.node.trunc_u32() as usize >= n {
                return false;
            }
            k = k + 1;
        }
        true
    }

    /// Replaces the positions.
    pub fn set_x(&mut self, x: Vec<Binary32>)
        requires
            old(self).wf(),
            x.len() == 2 * old(self)@.graph.n,
        ensures
            final(self).wf(),
            final(self)@ == (State { x: x@, ..old(self)@ }),
    {
        self.x = x;
    }

    /// Replaces the locks.
    pub fn set_locks(&mut self, locks: Vec<Lock>)
        requires
            old(self).wf(),
        ensures
            final(self).wf(),
            final(self)@ == (State { locks: locks@, ..old(self)@ }),
    {
        self.locks = locks;
    }

    /// Turns on the tracking of the diagonal of the Hessian.
    pub fn track_diagonal(&mut self)
        requires
            old(self).wf(),
        ensures
            final(self).wf(),
            final(self)@ == (State { track_huu: true, ..old(self)@ }),
    {
        self.engine.track_huu = true;
    }

    /// The positions.
    pub fn positions(&self) -> (x: &Vec<Binary32>)
        ensures
            x@ == self@.x,
    {
        &self.x
    }

    /// The gradient that was last computed.
    pub fn gradient(&self) -> (g: &Vec<Binary32>)
        ensures
            g@ == self@.g,
    {
        &self.engine.field.g
    }

    /// Replaces the gradient.
    pub fn set_gradient(&mut self, g: Vec<Binary32>)
        requires
            old(self).wf(),
            g.len() == 2 * old(self)@.graph.n,
        ensures
            final(self).wf(),
            final(self)@ == (State { g: g@, ..old(self)@ }),
    {
        self.engine.field.g = g;
    }

    /// The pairs that were active when the gradient was last computed.
    pub fn active(&self) -> (pairs: &Vec<ActivePair>)
        ensures
            pairs@ == self@.active,
    {
        &self.engine.field.active
    }
}

} // verus!
