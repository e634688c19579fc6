//! What the sums of a layout add up: forces, Hessian entries, squared lengths and quadratic forms.
//!
//! Each law names the terms of a sum; how far rounding may take the computed sum from the exact one
//! is said by [`sums_to`].
use crate::accuracy::{
    law_over_rounded, lemma_grid_opposite, lemma_negated, lemma_no_terms, lemma_opposite_sum,
    lemma_sum, lemma_term, lemma_weaker, on_grid, rounded_quotient, sums_to, unit,
};
use crate::binary32::{lit, size, Binary32};
use crate::model::{diagonal, diagonals, dist2, force, tri_index, ActivePair, Axis, Graph};
use crate::motion::{
    hessian_form, lane_square_sum, locked_form, moved, pair_sum, pair_term, square_sum,
    squared_length, squares, step_at, step_size,
};
use crate::rounding::magnitude_value;
use crate::scaled::lemma_zero_size;
use crate::topology::graph_valid;
use crate::weights::{law_ideal_distances, lemma_zero_never_active};
use vstd::arithmetic::power2::pow2;
use vstd::prelude::*;

verus! {

/// What an active pair adds to the gradient at node `w`, as an exact integer: its force where `w` is
/// its first node, the opposite where it is its second, and nothing at other nodes.
pub open spec fn pull_on(g: Graph, x: Seq<Binary32>, w: int, axis: Axis, p: ActivePair) -> int {
    let (u, v) = (p.u as int, p.v as int);
    let f = force(g.n, x, u, v, g.ideals()[tri_index(g.n, u, v)], axis).value();
    if u == w {
        f
    } else if v == w {
        -f
    } else {
        0
    }
}

/// The exact sum of what pairs add at a node.
pub open spec fn pull_sum(
    g: Graph,
    x: Seq<Binary32>,
    w: int,
    axis: Axis,
    pairs: Seq<ActivePair>,
) -> int
    decreases pairs.len(),
{
    if pairs.len() == 0 {
        0
    } else {
        pull_sum(g, x, w, axis, pairs.drop_last()) + pull_on(g, x, w, axis, pairs.last())
    }
}

/// The total size of what pairs add at a node.
pub open spec fn pull_size(
    g: Graph,
    x: Seq<Binary32>,
    w: int,
    axis: Axis,
    pairs: Seq<ActivePair>,
) -> int
    decreases pairs.len(),
{
    if pairs.len() == 0 {
        0
    } else {
        pull_size(g, x, w, axis, pairs.drop_last()) + size(pull_on(g, x, w, axis, pairs.last()))
    }
}

/// How many pairs hold a node.
pub open spec fn held(pairs: Seq<ActivePair>, w: int) -> nat
    decreases pairs.len(),
{
    if pairs.len() == 0 {
        0
    } else {
        let p = pairs.last();
        held(pairs.drop_last(), w) + if p.u == w || p.v == w {
            1nat
        } else {
            0
        }
    }
}

/// Whether all that pairs add at a node is on a grid.
pub open spec fn pulls_on_grid(
    g: Graph,
    x: Seq<Binary32>,
    w: int,
    axis: Axis,
    pairs: Seq<ActivePair>,
    j: nat,
) -> bool {
    forall|i: int|
        0 <= i < pairs.len() ==> on_grid(pull_on(g, x, w, axis, #[trigger] pairs[i]), j)
}

/// Whether a number is the computed sum of what pairs add at a node.
spec fn gathers(
    v: Binary32,
    g: Graph,
    x: Seq<Binary32>,
    w: int,
    axis: Axis,
    pairs: Seq<ActivePair>,
    extra: nat,
    j: nat,
) -> bool {
    sums_to(
        v,
        pull_sum(g, x, w, axis, pairs),
        pull_size(g, x, w, axis, pairs),
        held(pairs, w) + extra,
        pulls_on_grid(g, x, w, axis, pairs, j),
        j,
    )
}

proof fn lemma_grid_push(
    g: Graph,
    x: Seq<Binary32>,
    w: int,
    axis: Axis,
    pairs: Seq<ActivePair>,
    p: ActivePair,
    j: nat,
)
    ensures
        pulls_on_grid(g, x, w, axis, pairs.push(p), j) ==> pulls_on_grid(
            g,
            x,
            w,
            axis,
            pairs,
            j,
        ) && on_grid(pull_on(g, x, w, axis, p), j),
{
    let now = pairs.push(p);
    if pulls_on_grid(g, x, w, axis, now, j) {
        assert forall|i: int| 0 <= i < pairs.len() implies on_grid(
            pull_on(g, x, w, axis, #[trigger] pairs[i]),
            j,
        ) by {
            assert(now[i] == pairs[i]);
        }
        assert(now[pairs.len() as int] == p);
    }
}

/// One more pair: at its first node its force is added, at its second it is taken away.
proof fn lemma_gather_push(
    v: Binary32,
    g: Graph,
    x: Seq<Binary32>,
    w: int,
    axis: Axis,
    pairs: Seq<ActivePair>,
    p: ActivePair,
    f: Binary32,
    extra: nat,
    j: nat,
)
    requires
        gathers(v, g, x, w, axis, pairs, extra, j),
        p.u != p.v,
        f == force(
            g.n,
            x,
            p.u as int,
            p.v as int,
            g.ideals()[tri_index(g.n, p.u as int, p.v as int)],
            axis,
        ),
    ensures
        p.u == w ==> gathers(v.plus(f), g, x, w, axis, pairs.push(p), extra, j),
        p.v == w ==> gathers(v.minus(f), g, x, w, axis, pairs.push(p), extra, j),
        p.u != w && p.v != w ==> gathers(v, g, x, w, axis, pairs.push(p), extra, j),
{
    let now = pairs.push(p);
    assert(now.drop_last() =~= pairs);
    assert(now.last() == p);
    let grid = pulls_on_grid(g, x, w, axis, now, j);
    let (s, a, k) = (
        pull_sum(g, x, w, axis, pairs),
        pull_size(g, x, w, axis, pairs),
        held(pairs, w) + extra,
    );
    lemma_grid_push(g, x, w, axis, pairs, p, j);
    lemma_weaker(v, s, a, k, pulls_on_grid(g, x, w, axis, pairs, j), k, grid, j);
    if p.u == w {
        lemma_term(f, grid, j);
        lemma_sum(v, s, a, k, f, f.value(), size(f.value()) as int, 0, k + 1, grid, j);
    } else if p.v == w {
        lemma_negated(f);
        lemma_term(f.negated(), grid, j);
        lemma_sum(
            v,
            s,
            a,
            k,
            f.negated(),
            -f.value(),
            size(f.value()) as int,
            0,
            k + 1,
            grid,
            j,
        );
    }
}

proof fn lemma_gather_none(g: Graph, x: Seq<Binary32>, w: int, axis: Axis, extra: nat, j: nat)
    ensures
        gathers(lit(0), g, x, w, axis, Seq::empty(), extra, j),
{
    lemma_no_terms(true, j);
    lemma_weaker(
        lit(0),
        0,
        0,
        0,
        true,
        extra,
        pulls_on_grid(g, x, w, axis, Seq::empty(), j),
        j,
    );
}

proof fn lemma_edges_gather(g: Graph, x: Seq<Binary32>, w: int, axis: Axis, k: nat, j: nat)
    requires
        graph_valid(g),
        k <= g.edges.len(),
    ensures
        gathers(g.edge_gradient(x, w, axis, k), g, x, w, axis, g.edge_pairs(x, k), 0, j),
    decreases k,
{
    if k == 0 {
        lemma_gather_none(g, x, w, axis, 0, j);
    } else {
        let before = (k - 1) as nat;
        lemma_edges_gather(g, x, w, axis, before, j);
        if g.edge_active(x, k - 1) {
            let e = g.edges[k - 1];
            let (u, v) = (e.u as int, e.v as int);
            law_ideal_distances(g, u, v);
            let p = g.edge_pairs(x, k).last();
            assert(p.u == u && p.v == v);
            assert(g.ideals()[tri_index(g.n, u, v)] == e.ideal);
            lemma_gather_push(
                g.edge_gradient(x, w, axis, before),
                g,
                x,
                w,
                axis,
                g.edge_pairs(x, before),
                p,
                force(g.n, x, u, v, e.ideal, axis),
                0,
                j,
            );
        }
    }
}

/// A pair that is active in the sweep has the ideal distance that it is swept with.
pub proof fn lemma_active_ideal(g: Graph, x: Seq<Binary32>, u: int, v: int)
    requires
        graph_valid(g),
        0 <= u < v < g.n,
        g.pair_active(x, u, v),
    ensures
        g.ideals()[tri_index(g.n, u, v)] == g.swept(u, v),
{
    law_ideal_distances(g, u, v);
    lemma_zero_never_active(dist2(g.n, x, u, v));
    assert forall|k: int| 0 <= k < g.edges.len() implies (#[trigger] g.edges[k]).u != u
        || g.edges[k].v != v by {
        let e = g.edges[k];
        assert(g.swept(e.u as int, e.v as int) == lit(0));
    }
}

/// The pairs of a row that does not start at the node.
proof fn lemma_row_gather(
    val: Binary32,
    g: Graph,
    x: Seq<Binary32>,
    w: int,
    axis: Axis,
    before: Seq<ActivePair>,
    r: int,
    end: int,
    extra: nat,
    j: nat,
)
    requires
        graph_valid(g),
        gathers(val, g, x, w, axis, before, extra, j),
        0 <= r < end <= g.n,
        r != w,
        0 <= w < g.n,
    ensures
        gathers(
            if r < w < end && g.pair_active(x, r, w) {
                val.minus(force(g.n, x, r, w, g.swept(r, w), axis))
            } else {
                val
            },
            g,
            x,
            w,
            axis,
            before + g.row_pairs(x, r, end),
            extra,
            j,
        ),
    decreases end - r,
{
    if end == r + 1 {
        assert(before + g.row_pairs(x, r, end) =~= before);
    } else {
        lemma_row_gather(val, g, x, w, axis, before, r, end - 1, extra, j);
        let v = end - 1;
        let list = before + g.row_pairs(x, r, v);
        if g.pair_active(x, r, v) {
            let p = g.row_pairs(x, r, end).last();
            assert(p.u == r && p.v == v);
            assert(before + g.row_pairs(x, r, end) =~= list.push(p));
            lemma_active_ideal(g, x, r, v);
            lemma_gather_push(
                if r < w < v && g.pair_active(x, r, w) {
                    val.minus(force(g.n, x, r, w, g.swept(r, w), axis))
                } else {
                    val
                },
                g,
                x,
                w,
                axis,
                list,
                p,
                force(g.n, x, r, v, g.swept(r, v), axis),
                extra,
                j,
            );
        } else {
            assert(before + g.row_pairs(x, r, end) =~= list);
        }
    }
}

/// The pairs of the node's own row.
proof fn lemma_own_gather(g: Graph, x: Seq<Binary32>, w: int, axis: Axis, end: int, j: nat)
    requires
        graph_valid(g),
        0 <= w < end <= g.n,
    ensures
        gathers(g.row_gradient(x, w, axis, end), g, x, w, axis, g.row_pairs(x, w, end), 0, j),
    decreases end - w,
{
    if end == w + 1 {
        lemma_gather_none(g, x, w, axis, 0, j);
    } else {
        lemma_own_gather(g, x, w, axis, end - 1, j);
        let v = end - 1;
        if g.pair_active(x, w, v) {
            let p = g.row_pairs(x, w, end).last();
            assert(p.u == w && p.v == v);
            lemma_active_ideal(g, x, w, v);
            lemma_gather_push(
                g.row_gradient(x, w, axis, v),
                g,
                x,
                w,
                axis,
                g.row_pairs(x, w, v),
                p,
                force(g.n, x, w, v, g.swept(w, v), axis),
                0,
                j,
            );
        }
    }
}

proof fn lemma_column_gather(g: Graph, x: Seq<Binary32>, w: int, axis: Axis, r: nat, j: nat)
    requires
        graph_valid(g),
        r <= w < g.n,
    ensures
        gathers(
            g.column_gradient(x, w, axis, r),
            g,
            x,
            w,
            axis,
            g.edge_pairs(x, g.edges.len()) + g.rows_pairs(x, r),
            0,
            j,
        ),
    decreases r,
{
    let edges = g.edge_pairs(x, g.edges.len());
    if r == 0 {
        lemma_edges_gather(g, x, w, axis, g.edges.len(), j);
        assert(edges + g.rows_pairs(x, 0) =~= edges);
    } else {
        let before = (r - 1) as nat;
        lemma_column_gather(g, x, w, axis, before, j);
        lemma_row_gather(
            g.column_gradient(x, w, axis, before),
            g,
            x,
            w,
            axis,
            edges + g.rows_pairs(x, before),
            r - 1,
            g.n as int,
            0,
            j,
        );
        assert(edges + g.rows_pairs(x, r) =~= edges + g.rows_pairs(x, before) + g.row_pairs(
            x,
            r - 1,
            g.n as int,
        ));
    }
}

proof fn lemma_concat(
    g: Graph,
    x: Seq<Binary32>,
    w: int,
    axis: Axis,
    a: Seq<ActivePair>,
    b: Seq<ActivePair>,
)
    ensures
        pull_sum(g, x, w, axis, a + b) == pull_sum(g, x, w, axis, a) + pull_sum(g, x, w, axis, b),
        pull_size(g, x, w, axis, a + b) == pull_size(g, x, w, axis, a) + pull_size(
            g,
            x,
            w,
            axis,
            b,
        ),
        held(a + b, w) == held(a, w) + held(b, w),
    decreases b.len(),
{
    if b.len() == 0 {
        assert(a + b =~= a);
    } else {
        lemma_concat(g, x, w, axis, a, b.drop_last());
        assert((a + b).drop_last() =~= a + b.drop_last());
        assert((a + b).last() == b.last());
    }
}

proof fn lemma_later_rows(
    val: Binary32,
    g: Graph,
    x: Seq<Binary32>,
    w: int,
    axis: Axis,
    r: nat,
    j: nat,
)
    requires
        graph_valid(g),
        0 <= w < r <= g.n,
        val == g.gradient(x, w, axis),
    ensures
        gathers(
            val,
            g,
            x,
            w,
            axis,
            g.edge_pairs(x, g.edges.len()) + g.rows_pairs(x, r),
            1,
            j,
        ),
    decreases r,
{
    let edges = g.edge_pairs(x, g.edges.len());
    let before = (r - 1) as nat;
    let list = edges + g.rows_pairs(x, before);
    let row = g.row_pairs(x, r - 1, g.n as int);
    assert(edges + g.rows_pairs(x, r) =~= list + row);
    if w == r - 1 {
        lemma_column_gather(g, x, w, axis, before, j);
        lemma_own_gather(g, x, w, axis, g.n as int, j);
        lemma_concat(g, x, w, axis, list, row);
        let grid = pulls_on_grid(g, x, w, axis, list + row, j);
        assert(grid ==> pulls_on_grid(g, x, w, axis, list, j) && pulls_on_grid(
            g,
            x,
            w,
            axis,
            row,
            j,
        )) by {
            if grid {
                assert forall|i: int| 0 <= i < list.len() implies on_grid(
                    pull_on(g, x, w, axis, #[trigger] list[i]),
                    j,
                ) by {
                    assert((list + row)[i] == list[i]);
                }
                assert forall|i: int| 0 <= i < row.len() implies on_grid(
                    pull_on(g, x, w, axis, #[trigger] row[i]),
                    j,
                ) by {
                    assert((list + row)[list.len() + i] == row[i]);
                }
            }
        }
        let (c, d) = (
            g.column_gradient(x, w, axis, w as nat),
            g.row_gradient(x, w, axis, g.n as int),
        );
        let (s1, a1, k1) = (
            pull_sum(g, x, w, axis, list),
            pull_size(g, x, w, axis, list),
            held(list, w),
        );
        let (s2, a2, k2) = (
            pull_sum(g, x, w, axis, row),
            pull_size(g, x, w, axis, row),
            held(row, w),
        );
        lemma_weaker(c, s1, a1, k1, pulls_on_grid(g, x, w, axis, list, j), k1, grid, j);
        lemma_weaker(d, s2, a2, k2, pulls_on_grid(g, x, w, axis, row, j), k2, grid, j);
        lemma_sum(c, s1, a1, k1, d, s2, a2, k2, k1 + k2 + 1, grid, j);
    } else {
        lemma_later_rows(val, g, x, w, axis, before, j);
        lemma_row_gather(val, g, x, w, axis, list, r - 1, g.n as int, 1, j);
    }
}

/// The gradient at a node is the sum of the forces of the active pairs that hold it, each with its
/// ideal distance: added where the node is the first of the pair, taken away where it is the second.
/// Where all of these forces are multiples of two to the power `j`, and not more than two to the 24th
/// of it together, the sum is exact.
pub proof fn law_gradient_sums_forces(g: Graph, x: Seq<Binary32>, w: int, j: nat)
    requires
        graph_valid(g),
        0 <= w < g.n,
    ensures
        ({
            let pairs = g.active_pairs(x);
            &&& g.gradients(x).len() == 2 * g.n
            &&& sums_to(
                g.gradients(x)[w],
                pull_sum(g, x, w, Axis::X, pairs),
                pull_size(g, x, w, Axis::X, pairs),
                held(pairs, w) + 1,
                pulls_on_grid(g, x, w, Axis::X, pairs, j),
                j,
            )
            &&& sums_to(
                g.gradients(x)[g.n + w],
                pull_sum(g, x, w, Axis::Y, pairs),
                pull_size(g, x, w, Axis::Y, pairs),
                held(pairs, w) + 1,
                pulls_on_grid(g, x, w, Axis::Y, pairs, j),
                j,
            )
        }),
{
    lemma_later_rows(g.gradient(x, w, Axis::X), g, x, w, Axis::X, g.n, j);
    lemma_later_rows(g.gradient(x, w, Axis::Y), g, x, w, Axis::Y, g.n, j);
}

/// The entry of a pair for an axis, as an exact integer, where the pair holds node `w`; else zero.
pub open spec fn entry_on(p: ActivePair, w: int, axis: Axis) -> int {
    if p.u == w || p.v == w {
        match axis {
            Axis::X => p.idk_x.value(),
            Axis::Y => p.idk_y.value(),
        }
    } else {
        0
    }
}

/// The exact sum of the entries of the first `k` pairs that hold a node.
pub open spec fn entry_sum(pairs: Seq<ActivePair>, w: int, axis: Axis, k: nat) -> int
    decreases k,
{
    if k == 0 {
        0
    } else {
        entry_sum(pairs, w, axis, (k - 1) as nat) + entry_on(pairs[k - 1], w, axis)
    }
}

/// The total size of these entries.
pub open spec fn entry_size(pairs: Seq<ActivePair>, w: int, axis: Axis, k: nat) -> int
    decreases k,
{
    if k == 0 {
        0
    } else {
        entry_size(pairs, w, axis, (k - 1) as nat) + size(entry_on(pairs[k - 1], w, axis))
    }
}

/// Whether these entries are on a grid.
pub open spec fn entries_on_grid(pairs: Seq<ActivePair>, w: int, axis: Axis, j: nat) -> bool {
    forall|i: int| 0 <= i < pairs.len() ==> on_grid(entry_on(#[trigger] pairs[i], w, axis), j)
}

proof fn lemma_diagonal_sums(pairs: Seq<ActivePair>, w: int, axis: Axis, k: nat, j: nat)
    requires
        k <= pairs.len(),
    ensures
        sums_to(
            diagonal(pairs, w, axis, k),
            -entry_sum(pairs, w, axis, k),
            entry_size(pairs, w, axis, k),
            k,
            entries_on_grid(pairs, w, axis, j),
            j,
        ),
    decreases k,
{
    let grid = entries_on_grid(pairs, w, axis, j);
    if k == 0 {
        lemma_no_terms(grid, j);
    } else {
        let m = (k - 1) as nat;
        lemma_diagonal_sums(pairs, w, axis, m, j);
        let p = pairs[k - 1];
        let before = diagonal(pairs, w, axis, m);
        let (s, a) = (-entry_sum(pairs, w, axis, m), entry_size(pairs, w, axis, m));
        if p.u == w || p.v == w {
            let f = match axis {
                Axis::X => p.idk_x,
                Axis::Y => p.idk_y,
            };
            assert(grid ==> on_grid(entry_on(pairs[k - 1], w, axis), j));
            lemma_negated(f);
            lemma_grid_opposite(f.value(), j);
            lemma_term(f.negated(), grid, j);
            lemma_sum(
                before,
                s,
                a,
                m,
                f.negated(),
                -f.value(),
                size(f.value()) as int,
                0,
                k,
                grid,
                j,
            );
        } else {
            lemma_weaker(before, s, a, m, grid, k, grid, j);
        }
    }
}

/// The diagonal of the Hessian at a node is minus the sum of the entries of all active pairs that
/// hold it.
pub proof fn law_diagonal_sums_entries(pairs: Seq<ActivePair>, n: nat, w: int, j: nat)
    requires
        0 <= w < n,
    ensures
        diagonals(pairs, n).len() == 2 * n,
        sums_to(
            diagonals(pairs, n)[w],
            -entry_sum(pairs, w, Axis::X, pairs.len()),
            entry_size(pairs, w, Axis::X, pairs.len()),
            pairs.len(),
            entries_on_grid(pairs, w, Axis::X, j),
            j,
        ),
        sums_to(
            diagonals(pairs, n)[n + w],
            -entry_sum(pairs, w, Axis::Y, pairs.len()),
            entry_size(pairs, w, Axis::Y, pairs.len()),
            pairs.len(),
            entries_on_grid(pairs, w, Axis::Y, j),
            j,
        ),
{
    lemma_diagonal_sums(pairs, w, Axis::X, pairs.len(), j);
    lemma_diagonal_sums(pairs, w, Axis::Y, pairs.len(), j);
}

/// The exact sum of the first `m` rounded squares.
pub open spec fn square_total(e: Seq<Binary32>, m: nat) -> int
    decreases m,
{
    if m == 0 {
        0
    } else {
        square_total(e, (m - 1) as nat) + e[m - 1].times(e[m - 1]).value()
    }
}

/// Whether the first `m` rounded squares are on a grid.
pub open spec fn squares_on_grid(e: Seq<Binary32>, m: nat, j: nat) -> bool {
    forall|i: int| 0 <= i < m ==> on_grid((#[trigger] e[i]).times(e[i]).value(), j)
}

/// A square has no sign.
proof fn lemma_square_value(a: Binary32)
    ensures
        a.times(a).value() >= 0,
{
    reveal(Binary32::times);
}

proof fn lemma_square_total_size(e: Seq<Binary32>, m: nat)
    ensures
        square_total(e, m) >= 0,
    decreases m,
{
    if m > 0 {
        lemma_square_total_size(e, (m - 1) as nat);
        lemma_square_value(e[m - 1]);
    }
}

/// The exact sum of the rounded squares of one lane.
spec fn lane_total(g: Seq<Binary32>, lane: int, c: nat) -> int
    decreases c,
{
    if c == 0 {
        0
    } else {
        let e = g[4 * (c - 1) + lane];
        lane_total(g, lane, (c - 1) as nat) + e.times(e).value()
    }
}

proof fn lemma_lanes(g: Seq<Binary32>, c: nat)
    ensures
        lane_total(g, 0, c) + lane_total(g, 1, c) + lane_total(g, 2, c) + lane_total(g, 3, c)
            == square_total(g, 4 * c),
    decreases c,
{
    if c > 0 {
        lemma_lanes(g, (c - 1) as nat);
        reveal_with_fuel(square_total, 5);
    }
}

proof fn lemma_lane_sums(g: Seq<Binary32>, lane: int, c: nat, n2: nat, j: nat)
    requires
        0 <= lane < 4,
        4 * c <= n2,
    ensures
        sums_to(
            lane_square_sum(g, lane, c),
            lane_total(g, lane, c),
            lane_total(g, lane, c),
            c,
            squares_on_grid(g, n2, j),
            j,
        ),
    decreases c,
{
    let grid = squares_on_grid(g, n2, j);
    if c == 0 {
        lemma_no_terms(grid, j);
    } else {
        let m = (c - 1) as nat;
        lemma_lane_sums(g, lane, m, n2, j);
        let i = 4 * (c - 1) + lane;
        let e = g[i];
        assert(grid ==> on_grid(g[i].times(g[i]).value(), j));
        lemma_square_value(e);
        lemma_term(e.times(e), grid, j);
        lemma_sum(
            lane_square_sum(g, lane, m),
            lane_total(g, lane, m),
            lane_total(g, lane, m),
            m,
            e.times(e),
            e.times(e).value(),
            e.times(e).value(),
            0,
            c,
            grid,
            j,
        );
    }
}

proof fn lemma_length_sums(g: Seq<Binary32>, c: nat, end: nat, n2: nat, j: nat)
    requires
        4 * c <= end <= n2,
    ensures
        sums_to(
            square_sum(g, c, end),
            square_total(g, end),
            square_total(g, end),
            end + 3,
            squares_on_grid(g, n2, j),
            j,
        ),
    decreases end,
{
    let grid = squares_on_grid(g, n2, j);
    if end == 4 * c {
        lemma_lane_sums(g, 0, c, n2, j);
        lemma_lane_sums(g, 1, c, n2, j);
        lemma_lane_sums(g, 2, c, n2, j);
        lemma_lane_sums(g, 3, c, n2, j);
        lemma_lanes(g, c);
        let (l0, l1, l2, l3) = (
            lane_square_sum(g, 0, c),
            lane_square_sum(g, 1, c),
            lane_square_sum(g, 2, c),
            lane_square_sum(g, 3, c),
        );
        let (t0, t1, t2, t3) = (
            lane_total(g, 0, c),
            lane_total(g, 1, c),
            lane_total(g, 2, c),
            lane_total(g, 3, c),
        );
        lemma_sum(l0, t0, t0, c, l1, t1, t1, c, c + 1, grid, j);
        lemma_sum(l0.plus(l1), t0 + t1, t0 + t1, c + 1, l2, t2, t2, c, c + 2, grid, j);
        let (a, b) = (l0.plus(l1).plus(l2), t0 + t1 + t2);
        lemma_sum(a, b, b, c + 2, l3, t3, t3, c, c + 3, grid, j);
        lemma_weaker(a.plus(l3), b + t3, b + t3, c + 3, grid, end + 3, grid, j);
    } else {
        let m = (end - 1) as nat;
        lemma_length_sums(g, c, m, n2, j);
        let e = g[end - 1];
        assert(grid ==> on_grid(g[end - 1].times(g[end - 1]).value(), j));
        lemma_square_value(e);
        lemma_term(e.times(e), grid, j);
        lemma_sum(
            square_sum(g, c, m),
            square_total(g, m),
            square_total(g, m),
            m + 3,
            e.times(e),
            e.times(e).value(),
            e.times(e).value(),
            0,
            end + 3,
            grid,
            j,
        );
    }
}

/// The numerator of the step size is the sum of the squares of all entries of the gradient.
pub proof fn law_length_sums_squares(g: Seq<Binary32>, n: nat, j: nat)
    ensures
        sums_to(
            squared_length(g, n),
            square_total(g, 2 * n),
            square_total(g, 2 * n),
            2 * n + 3,
            squares_on_grid(g, 2 * n, j),
            j,
        ),
{
    lemma_length_sums(g, (2 * n) / 4, 2 * n, 2 * n, j);
}

/// The movement of a step is the sum of the squares of the differences of all coordinates.
pub proof fn law_movement_sums_squares(
    from: Seq<Binary32>,
    to: Seq<Binary32>,
    e: Seq<Binary32>,
    k: nat,
    j: nat,
)
    requires
        forall|i: int| 0 <= i < k ==> #[trigger] e[i] == from[i].minus(to[i]),
    ensures
        sums_to(
            moved(from, to, k),
            square_total(e, k),
            square_total(e, k),
            k,
            squares_on_grid(e, k, j),
            j,
        ),
    decreases k,
{
    let grid = squares_on_grid(e, k, j);
    if k == 0 {
        lemma_no_terms(grid, j);
    } else {
        let m = (k - 1) as nat;
        law_movement_sums_squares(from, to, e, m, j);
        let d = e[k - 1];
        assert(d == from[k - 1].minus(to[k - 1]));
        assert(grid ==> squares_on_grid(e, m, j) && on_grid(d.times(d).value(), j));
        let t = square_total(e, m);
        lemma_weaker(moved(from, to, m), t, t, m, squares_on_grid(e, m, j), m, grid, j);
        lemma_square_value(d);
        lemma_term(d.times(d), grid, j);
        lemma_sum(
            moved(from, to, m),
            t,
            t,
            m,
            d.times(d),
            d.times(d).value(),
            d.times(d).value(),
            0,
            k,
            grid,
            j,
        );
    }
}

/// The movement of a step that is given by its parts is the sum of their squares.
pub proof fn law_steps_sum_squares(steps: Seq<Binary32>, k: nat, j: nat)
    ensures
        sums_to(
            squares(steps, k),
            square_total(steps, k),
            square_total(steps, k),
            k,
            squares_on_grid(steps, k, j),
            j,
        ),
    decreases k,
{
    let grid = squares_on_grid(steps, k, j);
    if k == 0 {
        lemma_no_terms(grid, j);
    } else {
        let m = (k - 1) as nat;
        law_steps_sum_squares(steps, m, j);
        let d = steps[k - 1];
        assert(grid ==> squares_on_grid(steps, m, j) && on_grid(
            steps[k - 1].times(steps[k - 1]).value(),
            j,
        ));
        let t = square_total(steps, m);
        lemma_weaker(squares(steps, m), t, t, m, squares_on_grid(steps, m, j), m, grid, j);
        lemma_square_value(d);
        lemma_term(d.times(d), grid, j);
        lemma_sum(
            squares(steps, m),
            t,
            t,
            m,
            d.times(d),
            d.times(d).value(),
            d.times(d).value(),
            0,
            k,
            grid,
            j,
        );
    }
}

/// An entry of the Hessian times the square of the difference of the gradient across the pair, for
/// the two axes.
pub open spec fn energies(p: ActivePair, g: Seq<Binary32>, n: nat) -> (Binary32, Binary32) {
    let dgx = g[p.u as int].minus(g[p.v as int]);
    let dgy = g[n + p.u].minus(g[n + p.v]);
    (p.idk_x.times(dgx).times(dgx), p.idk_y.times(dgy).times(dgy))
}

/// The stiffness times the squared gradient of a node with a soft lock.
pub open spec fn lock_energy(u: int, g: Seq<Binary32>, n: nat, max_h: Binary32) -> Binary32 {
    max_h.times(g[u].times(g[u]).plus(g[n + u].times(g[n + u])))
}

/// The exact quadratic form: what all locks contribute, less what all pairs contribute.
pub open spec fn form_total(
    pairs: Seq<ActivePair>,
    lock_us: Seq<u32>,
    g: Seq<Binary32>,
    n: nat,
    max_h: Binary32,
) -> int {
    lock_total(lock_us, g, n, max_h, lock_us.len()) - pair_total(pairs, g, n, pairs.len())
}

/// The exact sum of what the first `k` pairs contribute.
pub open spec fn pair_total(pairs: Seq<ActivePair>, g: Seq<Binary32>, n: nat, k: nat) -> int
    decreases k,
{
    if k == 0 {
        0
    } else {
        let (ex, ey) = energies(pairs[k - 1], g, n);
        pair_total(pairs, g, n, (k - 1) as nat) + ex.value() + ey.value()
    }
}

/// The total size of what the first `k` pairs contribute.
pub open spec fn pair_total_size(pairs: Seq<ActivePair>, g: Seq<Binary32>, n: nat, k: nat) -> int
    decreases k,
{
    if k == 0 {
        0
    } else {
        let (ex, ey) = energies(pairs[k - 1], g, n);
        pair_total_size(pairs, g, n, (k - 1) as nat) + size(ex.value()) + size(ey.value())
    }
}

/// The exact sum of what the first `k` soft locks contribute.
pub open spec fn lock_total(
    lock_us: Seq<u32>,
    g: Seq<Binary32>,
    n: nat,
    max_h: Binary32,
    k: nat,
) -> int
    decreases k,
{
    if k == 0 {
        0
    } else {
        lock_total(lock_us, g, n, max_h, (k - 1) as nat) + lock_energy(
            lock_us[k - 1] as int,
            g,
            n,
            max_h,
        ).value()
    }
}

/// The total size of what the first `k` soft locks contribute.
pub open spec fn lock_total_size(
    lock_us: Seq<u32>,
    g: Seq<Binary32>,
    n: nat,
    max_h: Binary32,
    k: nat,
) -> int
    decreases k,
{
    if k == 0 {
        0
    } else {
        lock_total_size(lock_us, g, n, max_h, (k - 1) as nat) + size(
            lock_energy(lock_us[k - 1] as int, g, n, max_h).value(),
        )
    }
}

/// Whether all contributions to the quadratic form are on a grid.
pub open spec fn form_on_grid(
    pairs: Seq<ActivePair>,
    lock_us: Seq<u32>,
    g: Seq<Binary32>,
    n: nat,
    max_h: Binary32,
    j: nat,
) -> bool {
    &&& forall|i: int|
        0 <= i < pairs.len() ==> on_grid(energies(#[trigger] pairs[i], g, n).0.value(), j)
            && on_grid(energies(pairs[i], g, n).1.value(), j)
    &&& forall|i: int|
        0 <= i < lock_us.len() ==> on_grid(
            lock_energy(#[trigger] lock_us[i] as int, g, n, max_h).value(),
            j,
        )
}

proof fn lemma_pairs_sum(
    pairs: Seq<ActivePair>,
    lock_us: Seq<u32>,
    g: Seq<Binary32>,
    n: nat,
    max_h: Binary32,
    k: nat,
    j: nat,
)
    requires
        k <= pairs.len(),
    ensures
        sums_to(
            pair_sum(pairs, g, n, k),
            pair_total(pairs, g, n, k),
            pair_total_size(pairs, g, n, k),
            k + 1,
            form_on_grid(pairs, lock_us, g, n, max_h, j),
            j,
        ),
    decreases k,
{
    let grid = form_on_grid(pairs, lock_us, g, n, max_h, j);
    if k == 0 {
        lemma_no_terms(grid, j);
        lemma_weaker(lit(0), 0, 0, 0, grid, 1, grid, j);
    } else {
        let m = (k - 1) as nat;
        lemma_pairs_sum(pairs, lock_us, g, n, max_h, m, j);
        let p = pairs[k - 1];
        let (ex, ey) = energies(p, g, n);
        assert(grid ==> on_grid(energies(pairs[k - 1], g, n).0.value(), j));
        lemma_term(ex, grid, j);
        lemma_term(ey, grid, j);
        let (vx, vy) = (ex.value(), ey.value());
        let (ax, ay) = (size(vx) as int, size(vy) as int);
        lemma_sum(ex, vx, ax, 0, ey, vy, ay, 0, 1, grid, j);
        assert(pair_term(p, g, n) == ex.plus(ey));
        lemma_sum(
            pair_sum(pairs, g, n, m),
            pair_total(pairs, g, n, m),
            pair_total_size(pairs, g, n, m),
            m + 1,
            ex.plus(ey),
            vx + vy,
            ax + ay,
            1,
            k + 1,
            grid,
            j,
        );
    }
}

proof fn lemma_locks_sum(
    form: Binary32,
    pairs: Seq<ActivePair>,
    lock_us: Seq<u32>,
    g: Seq<Binary32>,
    n: nat,
    max_h: Binary32,
    k: nat,
    j: nat,
)
    requires
        k <= lock_us.len(),
        form == pair_sum(pairs, g, n, pairs.len()).negated(),
    ensures
        sums_to(
            locked_form(form, lock_us, g, n, max_h, k),
            lock_total(lock_us, g, n, max_h, k) - pair_total(pairs, g, n, pairs.len()),
            lock_total_size(lock_us, g, n, max_h, k) + pair_total_size(pairs, g, n, pairs.len()),
            pairs.len() + k + 1,
            form_on_grid(pairs, lock_us, g, n, max_h, j),
            j,
        ),
    decreases k,
{
    let grid = form_on_grid(pairs, lock_us, g, n, max_h, j);
    if k == 0 {
        lemma_pairs_sum(pairs, lock_us, g, n, max_h, pairs.len(), j);
        lemma_opposite_sum(
            pair_sum(pairs, g, n, pairs.len()),
            pair_total(pairs, g, n, pairs.len()),
            pair_total_size(pairs, g, n, pairs.len()),
            pairs.len() + 1,
            grid,
            j,
        );
    } else {
        let m = (k - 1) as nat;
        lemma_locks_sum(form, pairs, lock_us, g, n, max_h, m, j);
        let e = lock_energy(lock_us[k - 1] as int, g, n, max_h);
        assert(grid ==> on_grid(lock_energy(lock_us[k - 1] as int, g, n, max_h).value(), j));
        lemma_term(e, grid, j);
        lemma_sum(
            locked_form(form, lock_us, g, n, max_h, m),
            lock_total(lock_us, g, n, max_h, m) - pair_total(pairs, g, n, pairs.len()),
            lock_total_size(lock_us, g, n, max_h, m) + pair_total_size(
                pairs,
                g,
                n,
                pairs.len(),
            ),
            pairs.len() + m + 1,
            e,
            e.value(),
            size(e.value()) as int,
            0,
            pairs.len() + k + 1,
            grid,
            j,
        );
    }
}

/// The denominator of the step size is the quadratic form of the Hessian with all soft locks: the
/// stiffness times the squared gradient of every soft lock, less the contributions of every active
/// pair, for any lists of pairs and locks.
pub proof fn law_form_sums_all(
    g: Seq<Binary32>,
    n: nat,
    pairs: Seq<ActivePair>,
    lock_us: Seq<u32>,
    max_h: Binary32,
    j: nat,
)
    ensures
        sums_to(
            hessian_form(g, n, pairs, lock_us, max_h),
            form_total(pairs, lock_us, g, n, max_h),
            lock_total_size(lock_us, g, n, max_h, lock_us.len()) + pair_total_size(
                pairs,
                g,
                n,
                pairs.len(),
            ),
            pairs.len() + lock_us.len() + 1,
            form_on_grid(pairs, lock_us, g, n, max_h, j),
            j,
        ),
{
    lemma_locks_sum(
        pair_sum(pairs, g, n, pairs.len()).negated(),
        pairs,
        lock_us,
        g,
        n,
        max_h,
        lock_us.len(),
        j,
    );
}

proof fn lemma_locks_prefix(
    form: Binary32,
    a: Seq<u32>,
    b: Seq<u32>,
    g: Seq<Binary32>,
    n: nat,
    max_h: Binary32,
    k: nat,
)
    requires
        k <= a.len(),
        k <= b.len(),
        forall|i: int| 0 <= i < k ==> a[i] == b[i],
    ensures
        locked_form(form, a, g, n, max_h, k) == locked_form(form, b, g, n, max_h, k),
    decreases k,
{
    if k > 0 {
        lemma_locks_prefix(form, a, b, g, n, max_h, (k - 1) as nat);
    }
}

/// One more soft lock adds just its own term to the quadratic form, whatever locks there are: the
/// stiffness times the squared gradient of its node.
pub proof fn law_lock_adds_its_term(
    g: Seq<Binary32>,
    n: nat,
    pairs: Seq<ActivePair>,
    lock_us: Seq<u32>,
    max_h: Binary32,
    u: u32,
)
    ensures
        hessian_form(g, n, pairs, lock_us.push(u), max_h) == hessian_form(
            g,
            n,
            pairs,
            lock_us,
            max_h,
        ).plus(
            max_h.times(
                g[u as int].times(g[u as int]).plus(g[n + u].times(g[n + u])),
            ),
        ),
{
    let more = lock_us.push(u);
    let form = pair_sum(pairs, g, n, pairs.len()).negated();
    lemma_locks_prefix(form, lock_us, more, g, n, max_h, lock_us.len());
    assert(more[lock_us.len() as int] == u);
}

/// The step size is the squared length of the gradient over the quadratic form, but for one
/// rounding; and it is zero where the form is zero or not finite.
pub proof fn law_step_is_quotient(
    g: Seq<Binary32>,
    n: nat,
    pairs: Seq<ActivePair>,
    lock_us: Seq<u32>,
    max_h: Binary32,
)
    ensures
        ({
            let form = hessian_form(g, n, pairs, lock_us, max_h);
            let length = squared_length(g, n);
            let step = step_size(g, n, pairs, lock_us, max_h);
            if !form.finite() || form.value() == 0 {
                step == lit(0)
            } else {
                length.finite() ==> {
                    &&& step.finite() ==> rounded_quotient(
                        step.value(),
                        length.value(),
                        form.value(),
                    )
                    &&& size(length.value()) * unit() <= pow2(260) * size(form.value())
                        ==> step.finite()
                }
            }
        }),
{
    let form = hessian_form(g, n, pairs, lock_us, max_h);
    let length = squared_length(g, n);
    if form.finite() {
        lemma_zero_size(form);
        assert(magnitude_value(0) == 0);
        if form.value() != 0 && length.finite() {
            law_over_rounded(length, form);
        }
    }
}

/// Whether `step` is the squared length of the gradient at the positions `x` over the quadratic form
/// of the pairs that are active there, but for rounding: `length` and `form` are the rounded sums.
pub open spec fn step_parts(
    graph: Graph,
    x: Seq<Binary32>,
    step: Binary32,
    length: Binary32,
    form: Binary32,
    j: nat,
) -> bool {
    let g = graph.gradients(x);
    let pairs = graph.active_pairs(x);
    let n = graph.n;
    &&& sums_to(
        length,
        square_total(g, 2 * n),
        square_total(g, 2 * n),
        2 * n + 3,
        squares_on_grid(g, 2 * n, j),
        j,
    )
    &&& sums_to(
        form,
        -pair_total(pairs, g, n, pairs.len()),
        pair_total_size(pairs, g, n, pairs.len()),
        pairs.len() + 1,
        form_on_grid(pairs, Seq::empty(), g, n, lit(0), j),
        j,
    )
    &&& !form.finite() || form.value() == 0 ==> step == lit(0)
    &&& form.finite() && form.value() != 0 && length.finite() ==> {
        &&& step.finite() ==> rounded_quotient(step.value(), length.value(), form.value())
        &&& size(length.value()) * unit() <= pow2(260) * size(form.value()) ==> step.finite()
    }
}

/// The step size at given positions comes from the gradient and the active pairs there alone.
pub proof fn law_step_at(graph: Graph, x: Seq<Binary32>, j: nat)
    ensures
        exists|length: Binary32, form: Binary32| #[trigger]
            step_parts(graph, x, step_at(graph, x), length, form, j),
{
    let g = graph.gradients(x);
    let pairs = graph.active_pairs(x);
    let n = graph.n;
    let none = Seq::<u32>::empty();
    law_length_sums_squares(g, n, j);
    law_form_sums_all(g, n, pairs, none, lit(0), j);
    law_step_is_quotient(g, n, pairs, none, lit(0));
    assert(step_parts(
        graph,
        x,
        step_at(graph, x),
        squared_length(g, n),
        hessian_form(g, n, pairs, none, lit(0)),
        j,
    ));
}

} // verus!
