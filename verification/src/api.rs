//! The functions through which a host drives a layout.
use crate::binary32::{lit, Binary32};
use crate::context::{FastCtx, State};
use crate::membership::{connects, has_edge, law_edges_by_weight};
use crate::model::{diagonals, displacement_length, graph_of, peak, tri_index, weighted, LARGEST};
use crate::motion::{locks_in_range, step_size, Lock};
use crate::weights::covers;
use vstd::prelude::*;

verus! {

/// The locks that a flat list stands for: node, horizontal and vertical position in turn. What is
/// left over after whole triples is dropped.
pub open spec fn locks_of(flat: Seq<Binary32>) -> Seq<Lock> {
    Seq::new(
        flat.len() / 3,
        |k: int| Lock { node: flat[3 * k], x: flat[3 * k + 1], y: flat[3 * k + 2] },
    )
}

/// A context for the graph of a distance matrix, with all nodes at the origin.
pub fn fast_create(node_count: usize, d: Vec<Binary32>) -> (ctx: FastCtx)
    requires
        node_count < 0xffff,
        node_count * (node_count - 1) <= d.len(),
    ensures
        ctx.wf(),
        displacement_length(d@, ctx@.min_d),
        ({
            let zeros = Seq::new((2 * node_count) as nat, |i: int| lit(0));
            ctx@ == State {
                graph: graph_of(d@, node_count as nat),
                min_d: ctx@.min_d,
                x: zeros,
                g: zeros,
                huu: zeros,
                active: Seq::empty(),
                track_huu: false,
                max_h: lit(0),
                locks: Seq::empty(),
                lock_us: Seq::empty(),
                draws: 0,
            }
        }),
{
    FastCtx::new(d, node_count)
}

/// Sets the weights of the pairs; empty weights turn p-stress mode off.
pub fn fast_set_g(ctx: &mut FastCtx, g: Vec<Binary32>)
    requires
        old(ctx).wf(),
        g.len() == 0 || covers(old(ctx)@.graph, g@),
    ensures
        final(ctx).wf(),
        final(ctx)@ == (State { graph: weighted(old(ctx)@.graph, g@), ..old(ctx)@ }),
        final(ctx)@.graph.ideals() == old(ctx)@.graph.ideals(),
        final(ctx)@.graph.p_stress == (g.len() > 0),
        g.len() == 0 ==> final(ctx)@.graph.edges.len() == 0,
        g.len() > 0 ==> forall|u: int, v: int|
            0 <= u < v < final(ctx)@.graph.n ==> #[trigger] has_edge(final(ctx)@.graph, u, v) == (
            connects(final(ctx)@.graph.ideals()[tri_index(final(ctx)@.graph.n, u, v)])
                && g@[u * final(ctx)@.graph.n + v].at_most(lit(0x3f80_0000))),
{
    let ghost weights = g@;
    let ghost graph = ctx@.graph;
    proof {
        ctx.law_state_valid();
    }
    ctx.set_g(g);
    proof {
        assert forall|u: int, v: int| weights.len() > 0 && 0 <= u < v < graph.n implies
            #[trigger] has_edge(ctx@.graph, u, v) == (connects(
            graph.ideals()[tri_index(graph.n, u, v)],
        ) && weights[u * graph.n + v].at_most(lit(0x3f80_0000))) by {
            law_edges_by_weight(graph, weights, u, v);
        }
    }
}

/// Replaces the positions.
pub fn fast_set_x(ctx: &mut FastCtx, x: Vec<Binary32>)
    requires
        old(ctx).wf(),
        x.len() == 2 * old(ctx)@.graph.n,
    ensures
        final(ctx).wf(),
        final(ctx)@ == (State { x: x@, ..old(ctx)@ }),
{
    ctx.set_x(x);
}

/// Access to the positions.
pub fn fast_x_ptr(ctx: &FastCtx) -> (x: &Vec<Binary32>)
    ensures
        x@ == ctx@.x,
{
    ctx.positions()
}

/// Access to the gradient.
pub fn fast_g_ptr(ctx: &FastCtx) -> (g: &Vec<Binary32>)
    ensures
        g@ == ctx@.g,
{
    ctx.gradient()
}

/// The number of active pairs.
pub fn fast_active_count(ctx: &FastCtx) -> (count: usize)
    ensures
        count == ctx@.active.len(),
{
    ctx.active().len()
}

/// Replaces the locks by those of a flat list of triples.
pub fn fast_set_locks(ctx: &mut FastCtx, locks: Vec<Binary32>)
    requires
        old(ctx).wf(),
    ensures
        final(ctx).wf(),
        final(ctx)@ == (State { locks: locks_of(locks@), ..old(ctx)@ }),
        final(ctx)@.locks.len() == locks.len() / 3,
        forall|k: int|
            0 <= k && 3 * k + 2 < locks.len() ==> {
                let l = #[trigger] final(ctx)@.locks[k];
                l.node == locks[3 * k] && l.x == locks[3 * k + 1] && l.y == locks[3 * k + 2]
            },
{
    let count: usize = locks.len() / 3;
    let mut list: Vec<Lock> = Vec::new();
    let mut k: usize = 0;
    while k < count
        invariant
            k <= count,
            count == locks.len() / 3,
            list@ == locks_of(locks@).take(k as int),
        decreases count - k,
    {
        list.push(Lock { node: locks[3 * k], x: locks[3 * k + 1], y: locks[3 * k + 2] });
        assert(list@ =~= locks_of(locks@).take(k + 1));
        k = k + 1;
    }
    assert(list@ =~= locks_of(locks@));
    ctx.set_locks(list);
}

/// One step of the integrator; gives how far the positions moved.
pub fn fast_tick(ctx: &mut FastCtx, mode: u32) -> (disp: Binary32)
    requires
        old(ctx).wf(),
        locks_in_range(old(ctx)@.locks, old(ctx)@.graph.n),
        old(ctx)@.tick_ends(mode),
    ensures
        final(ctx).wf(),
        ({
            let t = old(ctx)@.world().tick(old(ctx)@.x, old(ctx)@.draws, mode);
            &&& final(ctx)@ == old(ctx)@.after(t)
            &&& disp == t.disp
        }),
{
    ctx.tick(mode)
}

/// Steps of the integrator until they settle; gives the movement of the last one.
pub fn fast_run(ctx: &mut FastCtx, iterations: u32, threshold: Binary32, mode: u32) -> (r: Binary32)
    requires
        old(ctx).wf(),
        iterations > 0 ==> locks_in_range(old(ctx)@.locks, old(ctx)@.graph.n),
        old(ctx)@.run_ends(iterations, threshold, mode),
    ensures
        final(ctx).wf(),
        iterations == 0 ==> final(ctx)@ == old(ctx)@ && r == lit(LARGEST),
        iterations > 0 ==> {
            let t = old(ctx)@.world().run(
                old(ctx)@.x,
                old(ctx)@.draws,
                mode,
                threshold,
                lit(LARGEST),
                iterations as nat,
            );
            &&& final(ctx)@ == old(ctx)@.after(t)
            &&& r == t.disp
        },
{
    ctx.run(iterations, threshold, mode)
}

/// Computes the gradient at the given positions, with the diagonal of the Hessian tracked, and gives
/// the positions back with coincident nodes displaced.
pub fn fast_compute(ctx: &mut FastCtx, x: Vec<Binary32>) -> (r: Vec<Binary32>)
    requires
        old(ctx).wf(),
        2 * old(ctx)@.graph.n <= x.len(),
        old(ctx)@.ends(x@),
    ensures
        final(ctx).wf(),
        r@ == old(ctx)@.settle(x@).x,
        r.len() == x.len(),
        ({
            let graph = old(ctx)@.graph;
            let active = graph.active_pairs(r@);
            &&& final(ctx)@ == State {
                g: graph.gradients(r@),
                active,
                lock_us: Seq::empty(),
                draws: old(ctx)@.settle(x@).draws,
                track_huu: true,
                huu: diagonals(active, graph.n),
                max_h: final(ctx)@.max_h,
                ..old(ctx)@
            }
            &&& peak(final(ctx)@.huu, final(ctx)@.max_h)
        }),
{
    let mut x: Vec<Binary32> = x;
    ctx.track_diagonal();
    ctx.compute(&mut x);
    x
}

/// The step size along the current gradient.
pub fn fast_step_size(ctx: &FastCtx) -> (r: Binary32)
    requires
        ctx.wf(),
    ensures
        r == step_size(ctx@.g, ctx@.graph.n, ctx@.active, ctx@.lock_us, ctx@.max_h),
{
    ctx.compute_step_size()
}

/// Adds a soft lock of node `u`, at `(x0u, x1u)`, to the position `(p0, p1)`.
pub fn fast_apply_lock(
    ctx: &mut FastCtx,
    u: usize,
    p0: Binary32,
    p1: Binary32,
    x0u: Binary32,
    x1u: Binary32,
)
    requires
        old(ctx).wf(),
        u < old(ctx)@.graph.n,
    ensures
        final(ctx).wf(),
        ({
            let before = old(ctx)@;
            let n = before.graph.n;
            final(ctx)@ == State {
                g: before.g.update(
                    u as int,
                    before.g[u as int].minus(before.max_h.times(p0.minus(x0u))),
                ).update(n + u, before.g[n + u].minus(before.max_h.times(p1.minus(x1u)))),
                lock_us: before.lock_us.push(u as u32),
                ..before
            }
        }),
{
    ctx.apply_lock(u, [p0, p1], [x0u, x1u]);
}

/// As [`fast_tick`], but where displacing would never end at a stage of the step, nothing is done and
/// `None` is given.
pub fn fast_try_tick(ctx: &mut FastCtx, mode: u32) -> (disp: Option<Binary32>)
    requires
        old(ctx).wf(),
        locks_in_range(old(ctx)@.locks, old(ctx)@.graph.n),
    ensures
        final(ctx).wf(),
        disp is Some == old(ctx)@.tick_ends(mode),
        disp is None ==> final(ctx)@ == old(ctx)@,
        disp is Some ==> {
            let t = old(ctx)@.world().tick(old(ctx)@.x, old(ctx)@.draws, mode);
            &&& final(ctx)@ == old(ctx)@.after(t)
            &&& disp == Some(t.disp)
        },
{
    if ctx.can_tick(mode) {
        Some(fast_tick(ctx, mode))
    } else {
        None
    }
}

/// As [`fast_run`], but where displacing would never end at a stage of the run, nothing is done and
/// `None` is given.
pub fn fast_try_run(
    ctx: &mut FastCtx,
    iterations: u32,
    threshold: Binary32,
    mode: u32,
) -> (r: Option<Binary32>)
    requires
        old(ctx).wf(),
        iterations > 0 ==> locks_in_range(old(ctx)@.locks, old(ctx)@.graph.n),
    ensures
        final(ctx).wf(),
        r is Some == old(ctx)@.run_ends(iterations, threshold, mode),
        r is None ==> final(ctx)@ == old(ctx)@,
        iterations == 0 ==> final(ctx)@ == old(ctx)@ && r == Some(lit(LARGEST)),
        iterations > 0 && r is Some ==> {
            let t = old(ctx)@.world().run(
                old(ctx)@.x,
                old(ctx)@.draws,
                mode,
                threshold,
                lit(LARGEST),
                iterations as nat,
            );
            &&& final(ctx)@ == old(ctx)@.after(t)
            &&& r == Some(t.disp)
        },
{
    if ctx.can_run(iterations, threshold, mode) {
        Some(fast_run(ctx, iterations, threshold, mode))
    } else {
        None
    }
}

/// As [`fast_compute`], but where displacing would never end, nothing is done and `None` is given.
pub fn fast_try_compute(ctx: &mut FastCtx, x: Vec<Binary32>) -> (r: Option<Vec<Binary32>>)
    requires
        old(ctx).wf(),
        2 * old(ctx)@.graph.n <= x.len(),
    ensures
        final(ctx).wf(),
        r is Some == old(ctx)@.ends(x@),
        r is None ==> final(ctx)@ == old(ctx)@,
        r matches Some(moved) ==> {
            let graph = old(ctx)@.graph;
            let active = graph.active_pairs(moved@);
            &&& moved@ == old(ctx)@.settle(x@).x
            &&& moved.len() == x.len()
            &&& final(ctx)@ == State {
                g: graph.gradients(moved@),
                active,
                lock_us: Seq::empty(),
                draws: old(ctx)@.settle(x@).draws,
                track_huu: true,
                huu: diagonals(active, graph.n),
                max_h: final(ctx)@.max_h,
                ..old(ctx)@
            }
            &&& peak(final(ctx)@.huu, final(ctx)@.max_h)
        },
{
    if ctx.can_compute(&x) {
        Some(fast_compute(ctx, x))
    } else {
        None
    }
}

} // verus!
