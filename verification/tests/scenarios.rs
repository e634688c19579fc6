use fast2d::api::{
    fast_active_count, fast_apply_lock, fast_compute, fast_create, fast_g_ptr, fast_run, fast_set_g,
    fast_set_locks, fast_set_x, fast_step_size, fast_tick, fast_x_ptr,
};
use fast2d::binary32::Binary32;
use fast2d::context::FastCtx;
use fast2d::topology::shortest_distance;

fn soft(x: &[f32]) -> Vec<Binary32> {
    x.iter().map(|e| Binary32::from_bits(e.to_bits())).collect()
}

fn one(x: f32) -> Binary32 {
    Binary32::from_bits(x.to_bits())
}

fn float(x: Binary32) -> f32 {
    f32::from_bits(x.to_bits())
}

fn floats(x: &Vec<Binary32>) -> Vec<f32> {
    x.iter().map(|e| float(*e)).collect()
}

fn pairs(ctx: &FastCtx) -> Vec<(u16, u16)> {
    ctx.active().iter().map(|p| (p.u, p.v)).collect()
}

/// A triangle with sides one, one and two.
const TRIANGLE: [f32; 9] = [0.0, 1.0, 2.0, 1.0, 0.0, 1.0, 2.0, 1.0, 0.0];

/// Its first two sides adjacent, the long one not.
const WEIGHTS: [f32; 9] = [0.0, 1.0, 2.0, 1.0, 0.0, 1.0, 2.0, 1.0, 0.0];

/// Nodes on a line, the outer ones closer than two.
const CLOSE: [f32; 6] = [0.0, 0.5, 1.0, 0.0, 0.0, 0.0];

/// Nodes on a line, the outer ones further apart than two.
const WIDE: [f32; 6] = [0.0, 2.0, 4.0, 0.0, 0.0, 0.0];

#[test]
fn a_new_context_is_at_the_origin_and_has_no_active_pair() {
    let ctx = fast_create(3, soft(&TRIANGLE));
    assert_eq!(floats(fast_x_ptr(&ctx)), vec![0.0; 6]);
    assert_eq!(floats(fast_g_ptr(&ctx)), vec![0.0; 6]);
    assert_eq!(fast_active_count(&ctx), 0);
    assert_eq!(fast_step_size(&ctx).to_bits(), 0);
}

#[test]
fn a_context_may_have_no_nodes() {
    let mut ctx = fast_create(0, vec![]);
    assert_eq!(float(fast_tick(&mut ctx, 0)), 0.0);
    assert_eq!(fast_compute(&mut ctx, vec![]).len(), 0);
    assert_eq!(fast_active_count(&ctx), 0);
}

#[test]
fn every_connected_pair_is_active_without_weights() {
    let mut ctx = fast_create(3, soft(&TRIANGLE));
    fast_compute(&mut ctx, soft(&WIDE));
    assert_eq!(pairs(&ctx), vec![(0, 1), (0, 2), (1, 2)]);
}

#[test]
fn pairs_without_a_distance_are_never_active() {
    let d = [0.0, f32::INFINITY, f32::NAN, 9.0, 0.0, -1.0, 9.0, 9.0, 0.0];
    let mut ctx = fast_create(3, soft(&d));
    fast_compute(&mut ctx, soft(&WIDE));
    assert_eq!(fast_active_count(&ctx), 0);
    fast_set_g(&mut ctx, soft(&[0.0; 9]));
    fast_compute(&mut ctx, soft(&WIDE));
    assert_eq!(fast_active_count(&ctx), 0);
    assert_eq!(floats(fast_g_ptr(&ctx)), vec![0.0; 6]);
}

#[test]
fn edges_come_first_and_are_active_whatever_their_distance() {
    let mut ctx = fast_create(3, soft(&TRIANGLE));
    fast_set_g(&mut ctx, soft(&WEIGHTS));
    fast_compute(&mut ctx, soft(&CLOSE));
    assert_eq!(pairs(&ctx), vec![(0, 1), (1, 2), (0, 2)]);
    // Two nodes that are not adjacent are left alone beyond their ideal distance.
    fast_compute(&mut ctx, soft(&WIDE));
    assert_eq!(pairs(&ctx), vec![(0, 1), (1, 2)]);
}

#[test]
fn empty_weights_restore_the_unweighted_graph() {
    let mut weighted = fast_create(3, soft(&TRIANGLE));
    let mut plain = fast_create(3, soft(&TRIANGLE));
    fast_set_g(&mut weighted, soft(&WEIGHTS));
    fast_set_g(&mut weighted, vec![]);
    fast_compute(&mut weighted, soft(&WIDE));
    fast_compute(&mut plain, soft(&WIDE));
    assert_eq!(pairs(&weighted), pairs(&plain));
    assert_eq!(floats(fast_g_ptr(&weighted)), floats(fast_g_ptr(&plain)));
}

#[test]
fn later_weights_replace_earlier_ones() {
    let mut twice = fast_create(3, soft(&TRIANGLE));
    let mut once = fast_create(3, soft(&TRIANGLE));
    fast_set_g(&mut twice, soft(&[0.5; 9]));
    fast_set_g(&mut twice, soft(&WEIGHTS));
    fast_set_g(&mut once, soft(&WEIGHTS));
    fast_compute(&mut twice, soft(&CLOSE));
    fast_compute(&mut once, soft(&CLOSE));
    assert_eq!(pairs(&twice), pairs(&once));
    assert_eq!(floats(fast_g_ptr(&twice)), floats(fast_g_ptr(&once)));
}

#[test]
fn the_gradient_of_one_pair_is_exact() {
    // Distance two, ideal distance one: 2 * (2 - 1) / 1 / 2 is one, so the parts are -2 and 2.
    let mut ctx = fast_create(2, soft(&[0.0, 1.0, 1.0, 0.0]));
    let x = fast_compute(&mut ctx, soft(&[0.0, 2.0, 0.0, 0.0]));
    assert_eq!(floats(&x), vec![0.0, 2.0, 0.0, 0.0]);
    assert_eq!(floats(fast_g_ptr(&ctx)), vec![-2.0, 2.0, 0.0, 0.0]);
    // Along the axis of the pair nothing is left of the curvature but -4; across it, 2 * 4 / 8 - 4.
    assert_eq!(float(ctx.active()[0].idk_x), -4.0);
    assert_eq!(float(ctx.active()[0].idk_y), -3.0);
}

#[test]
fn the_step_size_of_one_pair_is_exact() {
    // The gradient is (-2, 2), its squared length 8; the form is 4 * (-2 - 2)^2, which is 64.
    let mut ctx = fast_create(2, soft(&[0.0, 1.0, 1.0, 0.0]));
    fast_compute(&mut ctx, soft(&[0.0, 2.0, 0.0, 0.0]));
    assert_eq!(float(fast_step_size(&ctx)), 0.125);
}

#[test]
fn the_form_of_the_pairs_is_that_of_the_whole_matrix() {
    let mut ctx = fast_create(2, soft(&[0.0, 1.0, 1.0, 0.0]));
    fast_compute(&mut ctx, soft(&[0.0, 2.0, 0.0, 0.0]));
    let h = float(ctx.active()[0].idk_x);
    let g = floats(fast_g_ptr(&ctx));
    let matrix = [[-h, h], [h, -h]];
    let mut form = 0.0;
    for a in 0..2 {
        for b in 0..2 {
            form += g[a] * matrix[a][b] * g[b];
        }
    }
    assert_eq!(form, -h * (g[0] - g[1]) * (g[0] - g[1]));
    assert_eq!(float(fast_step_size(&ctx)), 8.0 / form);
}

#[test]
fn a_soft_lock_pulls_and_stiffens() {
    let mut ctx = fast_create(2, soft(&[0.0, 1.0, 1.0, 0.0]));
    let x = fast_compute(&mut ctx, soft(&[0.0, 2.0, 0.0, 0.0]));
    // The greatest diagonal entry is 4, so a pull by half a unit adds -2 to the gradient.
    fast_apply_lock(&mut ctx, 0, one(0.5), one(0.0), x[0], x[2]);
    assert_eq!(floats(fast_g_ptr(&ctx)), vec![-4.0, 2.0, 0.0, 0.0]);
    // The form is 4 * 36 from the pair and 4 * 16 from the lock.
    assert_eq!(float(fast_step_size(&ctx)), 20.0 / 208.0);
    // Soft locks last until the gradient is computed again.
    fast_compute(&mut ctx, soft(&[0.0, 2.0, 0.0, 0.0]));
    assert_eq!(float(fast_step_size(&ctx)), 0.125);
}

#[test]
fn the_forces_of_a_pair_are_opposite() {
    let mut ctx = fast_create(2, soft(&[0.0, 1.7, 1.7, 0.0]));
    fast_compute(&mut ctx, soft(&[0.3, 2.1, -0.7, 0.9]));
    let g = floats(fast_g_ptr(&ctx));
    fast_compute(&mut ctx, soft(&[2.1, 0.3, 0.9, -0.7]));
    let swapped = floats(fast_g_ptr(&ctx));
    assert_eq!(g[0], -g[1]);
    assert_eq!(g[2], -g[3]);
    assert_eq!(g[0], swapped[1]);
    assert_eq!(g[2], swapped[3]);
}

#[test]
fn coincident_nodes_are_displaced_by_the_least_distance() {
    let mut ctx = fast_create(2, soft(&[0.0, 0.5, 0.5, 0.0]));
    let x = floats(&fast_compute(&mut ctx, soft(&[1.0, 1.0, 1.0, 1.0])));
    for w in 0..2 {
        let length = (x[w] - 1.0).hypot(x[2 + w] - 1.0);
        assert!((length - 0.5).abs() < 0.0001);
    }
    assert_eq!(fast_active_count(&ctx), 1);
}

#[test]
fn separate_nodes_stay_where_they_are() {
    let mut ctx = fast_create(3, soft(&TRIANGLE));
    assert_eq!(floats(&fast_compute(&mut ctx, soft(&WIDE))), WIDE.to_vec());
}

#[test]
fn the_least_distance_is_found() {
    assert_eq!(float(shortest_distance(&soft(&[3.0, -1.0, 0.25, f32::NAN, 0.0]))), 0.25);
    assert_eq!(float(shortest_distance(&soft(&[f32::INFINITY, 0.0]))), 1.0);
    assert_eq!(float(shortest_distance(&soft(&[f32::MAX]))), 1.0);
    assert_eq!(float(shortest_distance(&vec![])), 1.0);
}

#[test]
fn locked_nodes_stay_where_they_are_held() {
    for mode in [1, 2, 5] {
        let mut ctx = fast_create(3, soft(&TRIANGLE));
        fast_set_x(&mut ctx, soft(&CLOSE));
        // Of two locks of one node the later decides; the last two numbers are no lock.
        fast_set_locks(&mut ctx, soft(&[2.0, 9.0, 9.0, 2.9, 0.1, 0.7, 1.0, 1.0]));
        for _ in 0..3 {
            fast_tick(&mut ctx, mode);
            let x = floats(fast_x_ptr(&ctx));
            assert_eq!((x[2], x[5]), (0.1, 0.7));
        }
    }
}

#[test]
fn locked_nodes_hold_through_the_stages_of_runge_kutta() {
    let mut ctx = fast_create(3, soft(&TRIANGLE));
    fast_set_x(&mut ctx, soft(&CLOSE));
    fast_set_locks(&mut ctx, soft(&[1.0, 0.5, 0.25]));
    fast_tick(&mut ctx, 0);
    let x = floats(fast_x_ptr(&ctx));
    assert_eq!((x[1], x[4]), (0.5, 0.25));
}

#[test]
fn locks_outside_the_graph_are_told() {
    let mut ctx = fast_create(3, soft(&TRIANGLE));
    assert!(ctx.locks_hold_nodes());
    fast_set_locks(&mut ctx, soft(&[2.0, 0.0, 0.0, 3.0, 0.0, 0.0]));
    assert!(!ctx.locks_hold_nodes());
    // A node below zero, or none at all, counts as the first.
    fast_set_locks(&mut ctx, soft(&[-5.0, 0.0, 0.0, f32::NAN, 0.0, 0.0]));
    assert!(ctx.locks_hold_nodes());
    fast_set_locks(&mut ctx, vec![]);
    assert!(ctx.locks_hold_nodes());
}

#[test]
fn weights_must_reach_the_connected_pairs() {
    let ctx = fast_create(3, soft(&TRIANGLE));
    assert!(ctx.accepts_weights(&vec![]));
    assert!(ctx.accepts_weights(&soft(&[1.0; 6])));
    assert!(!ctx.accepts_weights(&soft(&[1.0; 5])));
    // The last pair is not connected, so nothing is read for it.
    let loose = fast_create(3, soft(&[0.0, 1.0, 2.0, 1.0, 0.0, 0.0, 2.0, 0.0, 0.0]));
    assert!(loose.accepts_weights(&soft(&[1.0; 3])));
    assert!(!loose.accepts_weights(&soft(&[1.0; 2])));
    let mut edges = fast_create(3, soft(&TRIANGLE));
    fast_set_g(&mut edges, soft(&WEIGHTS));
    assert!(!edges.accepts_weights(&soft(&[1.0; 5])));
    assert!(edges.accepts_weights(&soft(&[1.0; 6])));
}

#[test]
fn a_run_of_no_steps_changes_nothing() {
    let mut ctx = fast_create(3, soft(&TRIANGLE));
    fast_set_x(&mut ctx, soft(&CLOSE));
    assert_eq!(float(fast_run(&mut ctx, 0, one(0.1), 0)), f32::MAX);
    assert_eq!(floats(fast_x_ptr(&ctx)), CLOSE.to_vec());
}

#[test]
fn runs_without_a_threshold_add_up() {
    let mut whole = fast_create(3, soft(&TRIANGLE));
    let mut parts = fast_create(3, soft(&TRIANGLE));
    let a = fast_run(&mut whole, 7, one(0.0), 0);
    fast_run(&mut parts, 3, one(0.0), 0);
    let b = fast_run(&mut parts, 4, one(-1.0), 0);
    assert_eq!(a.to_bits(), b.to_bits());
    assert_eq!(floats(fast_x_ptr(&whole)), floats(fast_x_ptr(&parts)));
}

#[test]
fn a_run_stops_when_the_movement_settles() {
    let mut run = fast_create(3, soft(&TRIANGLE));
    let mut ticks = fast_create(3, soft(&TRIANGLE));
    fast_set_x(&mut run, soft(&CLOSE));
    fast_set_x(&mut ticks, soft(&CLOSE));
    let last = fast_run(&mut run, 50, one(1000.0), 2);
    fast_tick(&mut ticks, 2);
    // The first step is compared with the largest number, the second with the first.
    assert_eq!(float(fast_tick(&mut ticks, 2)), float(last));
    assert_eq!(floats(fast_x_ptr(&run)), floats(fast_x_ptr(&ticks)));
}

#[test]
fn a_pair_settles_at_its_ideal_distance() {
    for mode in [0, 1, 2] {
        let mut ctx = fast_create(2, soft(&[0.0, 1.0, 1.0, 0.0]));
        fast_set_x(&mut ctx, soft(&[0.0, 2.0, 0.0, 0.0]));
        fast_run(&mut ctx, 200, one(0.0), mode);
        let x = floats(fast_x_ptr(&ctx));
        assert!(((x[0] - x[1]).hypot(x[2] - x[3]) - 1.0).abs() < 0.001);
    }
}

#[test]
fn active_pairs_are_never_more_than_the_pairs_of_nodes() {
    let mut ctx = fast_create(5, soft(&[1.0; 25]));
    let x: Vec<f32> = (0..10).map(|i| (i * i) as f32 * 0.01).collect();
    fast_compute(&mut ctx, soft(&x));
    assert_eq!(fast_active_count(&ctx), 10);
    fast_set_g(&mut ctx, soft(&[1.0; 25]));
    fast_compute(&mut ctx, soft(&x));
    assert_eq!(fast_active_count(&ctx), 10);
    let mut seen = pairs(&ctx);
    seen.sort();
    seen.dedup();
    assert_eq!(seen.len(), 10);
}

#[test]
fn the_step_size_is_zero_where_the_form_is_not_finite() {
    let mut ctx = fast_create(2, soft(&[0.0, 1.0e-30, 1.0e-30, 0.0]));
    fast_compute(&mut ctx, soft(&[0.0, 2.0, 0.0, 0.0]));
    assert_eq!(fast_step_size(&ctx).to_bits(), 0);
}
