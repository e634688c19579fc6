//! In which order the terms of sums are added, which decides how the sums are rounded, and that what
//! is not finite spreads through them.
use crate::accuracy::{law_plus_rounded, lemma_negated};
use crate::binary32::{lit, Binary32};
use crate::membership::has_edge;
use crate::model::{diagonal, diagonals, dist2, force, pair_of, tri_index, ActivePair, Axis, Graph};
use crate::motion::{
    hessian_form, lane_square_sum, locked_form, moved, pair_sum, square_sum, squared_length, squares,
    step_size,
};
use crate::sums::lemma_active_ideal;
use crate::topology::graph_valid;
use crate::weights::{law_ideal_distances, lemma_zero_never_active};
use vstd::prelude::*;

verus! {

/// The terms added one after another, from `start` on.
pub open spec fn chained(start: Binary32, terms: Seq<Binary32>) -> Binary32
    decreases terms.len(),
{
    if terms.len() == 0 {
        start
    } else {
        chained(start, terms.drop_last()).plus(terms.last())
    }
}

/// A sum is not finite where its start or one of its terms is not.
pub proof fn law_not_finite_spreads(start: Binary32, terms: Seq<Binary32>)
    ensures
        chained(start, terms).finite() ==> start.finite(),
        chained(start, terms).finite() ==> forall|i: int|
            0 <= i < terms.len() ==> (#[trigger] terms[i]).finite(),
    decreases terms.len(),
{
    if terms.len() > 0 {
        let rest = terms.drop_last();
        law_not_finite_spreads(start, rest);
        law_plus_rounded(chained(start, rest), terms.last());
        assert forall|i: int|
            chained(start, terms).finite() && 0 <= i < terms.len() implies (#[trigger] terms[i]).finite() by {
            if i < rest.len() {
                assert(rest[i] == terms[i]);
            }
        }
    }
}

/// The operations of a pair in the order in which they are rounded, for any number of nodes and any
/// numbers: the squared distance; the force `c (2 (d - s) (1 / s^2) (1 / d))` for the coordinate
/// difference `c`; and the entries of the Hessian `(2 (1 / s^2) s) (1 / d)^3 c c - 4 (1 / s^2)`, each
/// for the coordinate difference along the other axis.
pub proof fn law_pair_operations(n: nat, x: Seq<Binary32>, u: int, v: int, s: Binary32)
    ensures
        ({
            let dx = x[u].minus(x[v]);
            let dy = x[n + u].minus(x[n + v]);
            let d2 = dx.times(dx).plus(dy.times(dy));
            let d = d2.root();
            let rid2 = lit(0x3f80_0000).over(s.times(s));
            let r = lit(0x3f80_0000).over(d);
            let factor = lit(0x4000_0000).times(d.minus(s)).times(rid2).times(r);
            let bend = lit(0x4000_0000).times(rid2).times(s).times(r.times(r).times(r));
            let flat = lit(0x4080_0000).times(rid2);
            &&& dist2(n, x, u, v) == d2
            &&& force(n, x, u, v, s, Axis::X) == dx.times(factor)
            &&& force(n, x, u, v, s, Axis::Y) == dy.times(factor)
            &&& pair_of(n, x, u, v, s).idk_x == bend.times(dy).times(dy).minus(flat)
            &&& pair_of(n, x, u, v, s).idk_y == bend.times(dx).times(dx).minus(flat)
        }),
{
}

/// What pairs add at a node, one after another: the force of each pair of which it is the first
/// node, and the opposite for each pair of which it is the second.
pub open spec fn gathered(
    g: Graph,
    x: Seq<Binary32>,
    w: int,
    axis: Axis,
    pairs: Seq<ActivePair>,
) -> Binary32
    decreases pairs.len(),
{
    if pairs.len() == 0 {
        lit(0)
    } else {
        let before = gathered(g, x, w, axis, pairs.drop_last());
        let (u, v) = (pairs.last().u as int, pairs.last().v as int);
        let f = force(g.n, x, u, v, g.ideals()[tri_index(g.n, u, v)], axis);
        if u == w {
            before.plus(f)
        } else if v == w {
            before.plus(f.negated())
        } else {
            before
        }
    }
}

proof fn lemma_gathered_push(
    g: Graph,
    x: Seq<Binary32>,
    w: int,
    axis: Axis,
    pairs: Seq<ActivePair>,
    p: ActivePair,
)
    ensures
        ({
            let before = gathered(g, x, w, axis, pairs);
            let (u, v) = (p.u as int, p.v as int);
            let f = force(g.n, x, u, v, g.ideals()[tri_index(g.n, u, v)], axis);
            gathered(g, x, w, axis, pairs.push(p)) == if u == w {
                before.plus(f)
            } else if v == w {
                before.minus(f)
            } else {
                before
            }
        }),
{
    assert(pairs.push(p).drop_last() =~= pairs);
}

proof fn lemma_edges_gathered(g: Graph, x: Seq<Binary32>, w: int, axis: Axis, k: nat)
    requires
        graph_valid(g),
        k <= g.edges.len(),
    ensures
        gathered(g, x, w, axis, g.edge_pairs(x, k)) == g.edge_gradient(x, w, axis, k),
        forall|i: int|
            0 <= i < g.edge_pairs(x, k).len() ==> has_edge(
                g,
                (#[trigger] g.edge_pairs(x, k)[i]).u as int,
                g.edge_pairs(x, k)[i].v as int,
            ),
    decreases k,
{
    if k > 0 {
        let m = (k - 1) as nat;
        lemma_edges_gathered(g, x, w, axis, m);
        let e = g.edges[k - 1];
        let (u, v) = (e.u as int, e.v as int);
        let before = g.edge_pairs(x, m);
        let now = g.edge_pairs(x, k);
        if g.edge_active(x, k - 1) {
            law_ideal_distances(g, u, v);
            let p = now.last();
            assert(p.u == u && p.v == v);
            assert(g.ideals()[tri_index(g.n, u, v)] == e.ideal);
            lemma_gathered_push(g, x, w, axis, before, p);
            assert(now =~= before.push(p));
            assert forall|i: int| 0 <= i < now.len() implies has_edge(
                g,
                (#[trigger] now[i]).u as int,
                now[i].v as int,
            ) by {
                if i < before.len() {
                    assert(now[i] == before[i]);
                } else {
                    assert(g.edges[k - 1].u == now[i].u && g.edges[k - 1].v == now[i].v);
                }
            }
        }
    }
}

proof fn lemma_row_gathered(
    g: Graph,
    x: Seq<Binary32>,
    w: int,
    axis: Axis,
    list: Seq<ActivePair>,
    r: int,
    end: int,
)
    requires
        graph_valid(g),
        0 <= r < end <= g.n,
        0 <= w < g.n,
        r != w,
    ensures
        gathered(g, x, w, axis, list + g.row_pairs(x, r, end)) == if r < w < end && g.pair_active(
            x,
            r,
            w,
        ) {
            gathered(g, x, w, axis, list).minus(force(g.n, x, r, w, g.swept(r, w), axis))
        } else {
            gathered(g, x, w, axis, list)
        },
        forall|i: int|
            0 <= i < g.row_pairs(x, r, end).len() ==> (#[trigger] g.row_pairs(x, r, end)[i]).u == r
                && r < g.row_pairs(x, r, end)[i].v < end,
    decreases end - r,
{
    let now = g.row_pairs(x, r, end);
    if end == r + 1 {
        assert(list + now =~= list);
    } else {
        lemma_row_gathered(g, x, w, axis, list, r, end - 1);
        let before = g.row_pairs(x, r, end - 1);
        if g.pair_active(x, r, end - 1) {
            let p = now.last();
            assert(p.u == r && p.v == end - 1);
            lemma_active_ideal(g, x, r, end - 1);
            lemma_gathered_push(g, x, w, axis, list + before, p);
            assert(list + now =~= (list + before).push(p));
            assert forall|i: int| 0 <= i < now.len() implies (#[trigger] now[i]).u == r && r
                < now[i].v < end by {
                if i < before.len() {
                    assert(now[i] == before[i]);
                }
            }
        }
    }
}

proof fn lemma_own_gathered(g: Graph, x: Seq<Binary32>, w: int, axis: Axis, end: int)
    requires
        graph_valid(g),
        0 <= w < end <= g.n,
    ensures
        gathered(g, x, w, axis, g.row_pairs(x, w, end)) == g.row_gradient(x, w, axis, end),
        forall|i: int|
            0 <= i < g.row_pairs(x, w, end).len() ==> (#[trigger] g.row_pairs(x, w, end)[i]).u == w
                && w < g.row_pairs(x, w, end)[i].v < end && !has_edge(
                g,
                w,
                g.row_pairs(x, w, end)[i].v as int,
            ),
    decreases end - w,
{
    if end > w + 1 {
        lemma_own_gathered(g, x, w, axis, end - 1);
        let v = end - 1;
        let before = g.row_pairs(x, w, v);
        let now = g.row_pairs(x, w, end);
        if g.pair_active(x, w, v) {
            let p = now.last();
            assert(p.u == w && p.v == v);
            lemma_active_ideal(g, x, w, v);
            lemma_swept_no_edge(g, x, w, v);
            lemma_gathered_push(g, x, w, axis, before, p);
            assert(now =~= before.push(p));
            assert forall|i: int| 0 <= i < now.len() implies (#[trigger] now[i]).u == w && w
                < now[i].v < end && !has_edge(g, w, now[i].v as int) by {
                if i < before.len() {
                    assert(now[i] == before[i]);
                }
            }
        }
    }
}

/// A pair that is active in the sweep is no edge.
proof fn lemma_swept_no_edge(g: Graph, x: Seq<Binary32>, u: int, v: int)
    requires
        graph_valid(g),
        0 <= u < v < g.n,
        g.pair_active(x, u, v),
    ensures
        !has_edge(g, u, v),
{
    lemma_zero_never_active(dist2(g.n, x, u, v));
    if has_edge(g, u, v) {
        let k = choose|k: int|
            0 <= k < g.edges.len() && (#[trigger] g.edges[k]).u == u && g.edges[k].v == v;
        assert(g.swept(g.edges[k].u as int, g.edges[k].v as int) == lit(0));
    }
}

proof fn lemma_column_gathered(g: Graph, x: Seq<Binary32>, w: int, axis: Axis, r: nat)
    requires
        graph_valid(g),
        r <= w < g.n,
    ensures
        ({
            let list = g.edge_pairs(x, g.edges.len()) + g.rows_pairs(x, r);
            &&& gathered(g, x, w, axis, list) == g.column_gradient(x, w, axis, r)
            &&& forall|i: int|
                0 <= i < list.len() && (#[trigger] list[i]).u == w ==> has_edge(
                    g,
                    w,
                    list[i].v as int,
                )
        }),
    decreases r,
{
    let edges = g.edge_pairs(x, g.edges.len());
    let list = edges + g.rows_pairs(x, r);
    if r == 0 {
        lemma_edges_gathered(g, x, w, axis, g.edges.len());
        assert(list =~= edges);
    } else {
        let m = (r - 1) as nat;
        lemma_column_gathered(g, x, w, axis, m);
        let before = edges + g.rows_pairs(x, m);
        let row = g.row_pairs(x, r - 1, g.n as int);
        lemma_row_gathered(g, x, w, axis, before, r - 1, g.n as int);
        assert(list =~= before + row);
        assert forall|i: int| 0 <= i < list.len() && (#[trigger] list[i]).u == w implies has_edge(
            g,
            w,
            list[i].v as int,
        ) by {
            if i < before.len() {
                assert(list[i] == before[i]);
            } else {
                assert(list[i] == row[i - before.len()]);
            }
        }
    }
}

/// Whether `c` holds no pair of the node.
pub open spec fn without_node(c: Seq<ActivePair>, w: int) -> bool {
    forall|i: int| 0 <= i < c.len() ==> (#[trigger] c[i]).u != w && c[i].v != w
}

proof fn lemma_later_rows_without(g: Graph, x: Seq<Binary32>, w: int, r: nat)
    requires
        graph_valid(g),
        0 <= w < r <= g.n,
    ensures
        exists|c: Seq<ActivePair>|
            {
                &&& #[trigger] without_node(c, w)
                &&& g.rows_pairs(x, r) == g.rows_pairs(x, w as nat) + g.row_pairs(
                    x,
                    w,
                    g.n as int,
                ) + c
            },
    decreases r,
{
    let own = g.rows_pairs(x, w as nat) + g.row_pairs(x, w, g.n as int);
    if r == w + 1 {
        let c = Seq::<ActivePair>::empty();
        assert(without_node(c, w));
        assert(g.rows_pairs(x, r) =~= own + c);
    } else {
        lemma_later_rows_without(g, x, w, (r - 1) as nat);
        let b = choose|c: Seq<ActivePair>|
            {
                &&& #[trigger] without_node(c, w)
                &&& g.rows_pairs(x, (r - 1) as nat) == own + c
            };
        let row = g.row_pairs(x, r - 1, g.n as int);
        lemma_row_gathered(g, x, w, Axis::X, Seq::empty(), r - 1, g.n as int);
        let c = b + row;
        assert forall|i: int| 0 <= i < c.len() implies (#[trigger] c[i]).u != w && c[i].v != w by {
            if i < b.len() {
                assert(c[i] == b[i]);
            } else {
                assert(c[i] == row[i - b.len()]);
            }
        }
        assert(without_node(c, w));
        assert(g.rows_pairs(x, r) =~= own + c);
    }
}

/// Whether the active pairs fall into those up to the row of the node, those of its row, in which the
/// node is the first, and the rest, which does not hold the node. Among the first of these the node
/// is the first one of edges only; none of the second are edges.
pub open spec fn parted(
    g: Graph,
    pairs: Seq<ActivePair>,
    w: int,
    a: Seq<ActivePair>,
    b: Seq<ActivePair>,
    c: Seq<ActivePair>,
) -> bool {
    &&& pairs == a + b + c
    &&& forall|i: int|
        0 <= i < a.len() && (#[trigger] a[i]).u == w ==> has_edge(g, w, a[i].v as int)
    &&& forall|i: int|
        0 <= i < b.len() ==> (#[trigger] b[i]).u == w && !has_edge(g, w, b[i].v as int)
    &&& without_node(c, w)
}

/// The gradient at a node in the order in which it is rounded: what the edges and the earlier rows
/// leave there, one after another, plus the sum over the pairs of its own row.
pub proof fn law_gradient_order(g: Graph, x: Seq<Binary32>, w: int)
    requires
        graph_valid(g),
        0 <= w < g.n,
    ensures
        exists|a: Seq<ActivePair>, b: Seq<ActivePair>, c: Seq<ActivePair>|
            {
                &&& #[trigger] parted(g, g.active_pairs(x), w, a, b, c)
                &&& g.gradients(x)[w] == gathered(g, x, w, Axis::X, a).plus(
                    gathered(g, x, w, Axis::X, b),
                )
                &&& g.gradients(x)[g.n + w] == gathered(g, x, w, Axis::Y, a).plus(
                    gathered(g, x, w, Axis::Y, b),
                )
            },
{
    let edges = g.edge_pairs(x, g.edges.len());
    let a = edges + g.rows_pairs(x, w as nat);
    let b = g.row_pairs(x, w, g.n as int);
    lemma_column_gathered(g, x, w, Axis::X, w as nat);
    lemma_column_gathered(g, x, w, Axis::Y, w as nat);
    lemma_own_gathered(g, x, w, Axis::X, g.n as int);
    lemma_own_gathered(g, x, w, Axis::Y, g.n as int);
    lemma_later_rows_without(g, x, w, g.n);
    let c = choose|c: Seq<ActivePair>|
        {
            &&& #[trigger] without_node(c, w)
            &&& g.rows_pairs(x, g.n) == g.rows_pairs(x, w as nat) + g.row_pairs(
                x,
                w,
                g.n as int,
            ) + c
        };
    assert(g.active_pairs(x) =~= a + b + c);
    assert(parted(g, g.active_pairs(x), w, a, b, c));
}

/// A force that is not finite leaves no finite gradient at the nodes it acts on.
proof fn lemma_gathered_finite(
    g: Graph,
    x: Seq<Binary32>,
    w: int,
    axis: Axis,
    pairs: Seq<ActivePair>,
    i: int,
)
    requires
        0 <= i < pairs.len(),
        pairs[i].u == w || pairs[i].v == w,
        gathered(g, x, w, axis, pairs).finite(),
    ensures
        ({
            let (u, v) = (pairs[i].u as int, pairs[i].v as int);
            force(g.n, x, u, v, g.ideals()[tri_index(g.n, u, v)], axis).finite()
        }),
    decreases pairs.len(),
{
    let rest = pairs.drop_last();
    let before = gathered(g, x, w, axis, rest);
    let (u, v) = (pairs.last().u as int, pairs.last().v as int);
    let f = force(g.n, x, u, v, g.ideals()[tri_index(g.n, u, v)], axis);
    law_plus_rounded(before, f);
    law_plus_rounded(before, f.negated());
    lemma_negated(f);
    if i < rest.len() {
        assert(rest[i] == pairs[i]);
        lemma_gathered_finite(g, x, w, axis, rest, i);
    }
}

/// Where the gradient at a node is finite, all forces that act on the node are.
pub proof fn law_gradient_finite(g: Graph, x: Seq<Binary32>, w: int, i: int)
    requires
        graph_valid(g),
        0 <= w < g.n,
        0 <= i < g.active_pairs(x).len(),
        g.active_pairs(x)[i].u == w || g.active_pairs(x)[i].v == w,
    ensures
        ({
            let p = g.active_pairs(x)[i];
            let s = g.ideals()[tri_index(g.n, p.u as int, p.v as int)];
            &&& g.gradients(x)[w].finite() ==> force(
                g.n,
                x,
                p.u as int,
                p.v as int,
                s,
                Axis::X,
            ).finite()
            &&& g.gradients(x)[g.n + w].finite() ==> force(
                g.n,
                x,
                p.u as int,
                p.v as int,
                s,
                Axis::Y,
            ).finite()
        }),
{
    law_gradient_order(g, x, w);
    let pairs = g.active_pairs(x);
    let (a, b, c) = choose|a: Seq<ActivePair>, b: Seq<ActivePair>, c: Seq<ActivePair>|
        {
            &&& #[trigger] parted(g, pairs, w, a, b, c)
            &&& g.gradients(x)[w] == gathered(g, x, w, Axis::X, a).plus(
                gathered(g, x, w, Axis::X, b),
            )
            &&& g.gradients(x)[g.n + w] == gathered(g, x, w, Axis::Y, a).plus(
                gathered(g, x, w, Axis::Y, b),
            )
        };
    law_plus_rounded(gathered(g, x, w, Axis::X, a), gathered(g, x, w, Axis::X, b));
    law_plus_rounded(gathered(g, x, w, Axis::Y, a), gathered(g, x, w, Axis::Y, b));
    let k = i - a.len();
    if i < a.len() {
        assert(pairs[i] == a[i]);
        if g.gradients(x)[w].finite() {
            lemma_gathered_finite(g, x, w, Axis::X, a, i);
        }
        if g.gradients(x)[g.n + w].finite() {
            lemma_gathered_finite(g, x, w, Axis::Y, a, i);
        }
    } else if k < b.len() {
        assert(pairs[i] == b[k]);
        if g.gradients(x)[w].finite() {
            lemma_gathered_finite(g, x, w, Axis::X, b, k);
        }
        if g.gradients(x)[g.n + w].finite() {
            lemma_gathered_finite(g, x, w, Axis::Y, b, k);
        }
    } else {
        assert(pairs[i] == c[k - b.len()]);
    }
}

/// The squares of the differences of the first `k` entries.
pub open spec fn difference_squares(
    from: Seq<Binary32>,
    to: Seq<Binary32>,
    k: nat,
) -> Seq<Binary32> {
    Seq::new(k, |i: int| from[i].minus(to[i]).times(from[i].minus(to[i])))
}

/// The movement of a step in the order in which it is rounded: the squared differences one after
/// another.
pub proof fn law_movement_order(from: Seq<Binary32>, to: Seq<Binary32>, k: nat)
    ensures
        moved(from, to, k) == chained(lit(0), difference_squares(from, to, k)),
    decreases k,
{
    if k > 0 {
        law_movement_order(from, to, (k - 1) as nat);
        let terms = difference_squares(from, to, k);
        assert(terms.drop_last() =~= difference_squares(from, to, (k - 1) as nat));
    }
}

/// The squares of entries that are `stride` apart, the first being at `start`.
pub open spec fn square_terms(
    e: Seq<Binary32>,
    start: nat,
    stride: nat,
    count: nat,
) -> Seq<Binary32> {
    Seq::new(count, |i: int| e[start + stride * i].times(e[start + stride * i]))
}

/// The movement of a step that is given by its parts in the order in which it is rounded: the squares
/// one after another.
pub proof fn law_steps_order(steps: Seq<Binary32>, k: nat)
    ensures
        squares(steps, k) == chained(lit(0), square_terms(steps, 0, 1, k)),
    decreases k,
{
    if k > 0 {
        law_steps_order(steps, (k - 1) as nat);
        let terms = square_terms(steps, 0, 1, k);
        assert(terms.drop_last() =~= square_terms(steps, 0, 1, (k - 1) as nat));
    }
}

proof fn lemma_lane_order(g: Seq<Binary32>, lane: nat, c: nat)
    ensures
        lane_square_sum(g, lane as int, c) == chained(lit(0), square_terms(g, lane, 4, c)),
    decreases c,
{
    if c > 0 {
        lemma_lane_order(g, lane, (c - 1) as nat);
        let terms = square_terms(g, lane, 4, c);
        assert(terms.drop_last() =~= square_terms(g, lane, 4, (c - 1) as nat));
        assert(g[4 * (c - 1) + lane] == g[lane + 4 * (c - 1)]);
    }
}

proof fn lemma_tail_order(g: Seq<Binary32>, c: nat, end: nat)
    requires
        4 * c <= end,
    ensures
        square_sum(g, c, end) == chained(
            square_sum(g, c, 4 * c),
            square_terms(g, 4 * c, 1, (end - 4 * c) as nat),
        ),
    decreases end,
{
    if end > 4 * c {
        let m = (end - 1) as nat;
        lemma_tail_order(g, c, m);
        let terms = square_terms(g, 4 * c, 1, (end - 4 * c) as nat);
        assert(terms.drop_last() =~= square_terms(g, 4 * c, 1, (m - 4 * c) as nat));
        assert(terms.last() == g[end - 1].times(g[end - 1]));
    }
}

/// The squared length of the gradient in the order in which it is rounded: four sums over every
/// fourth entry are added up, and then the entries after the last whole group of four.
pub proof fn law_length_order(g: Seq<Binary32>, n: nat)
    ensures
        ({
            let c = ((2 * n) / 4) as nat;
            let lanes = chained(lit(0), square_terms(g, 0, 4, c)).plus(
                chained(lit(0), square_terms(g, 1, 4, c)),
            ).plus(chained(lit(0), square_terms(g, 2, 4, c))).plus(
                chained(lit(0), square_terms(g, 3, 4, c)),
            );
            squared_length(g, n) == chained(
                lanes,
                square_terms(g, 4 * c, 1, (2 * n - 4 * c) as nat),
            )
        }),
{
    let c = ((2 * n) / 4) as nat;
    lemma_lane_order(g, 0, c);
    lemma_lane_order(g, 1, c);
    lemma_lane_order(g, 2, c);
    lemma_lane_order(g, 3, c);
    lemma_tail_order(g, c, 2 * n);
}

/// What active pairs contribute to the quadratic form: for each the entry times the squared
/// difference of the gradient, for the two axes.
pub open spec fn pair_terms(
    pairs: Seq<ActivePair>,
    g: Seq<Binary32>,
    n: nat,
    k: nat,
) -> Seq<Binary32> {
    Seq::new(
        k,
        |i: int|
            {
                let p = pairs[i];
                let dgx = g[p.u as int].minus(g[p.v as int]);
                let dgy = g[n + p.u].minus(g[n + p.v]);
                p.idk_x.times(dgx).times(dgx).plus(p.idk_y.times(dgy).times(dgy))
            },
    )
}

/// What soft locks contribute to the quadratic form: for each the stiffness times the squared
/// gradient of its node.
pub open spec fn lock_terms(
    lock_us: Seq<u32>,
    g: Seq<Binary32>,
    n: nat,
    max_h: Binary32,
    k: nat,
) -> Seq<Binary32> {
    Seq::new(
        k,
        |i: int|
            {
                let u = lock_us[i] as int;
                max_h.times(g[u].times(g[u]).plus(g[n + u].times(g[n + u])))
            },
    )
}

proof fn lemma_pairs_order(pairs: Seq<ActivePair>, g: Seq<Binary32>, n: nat, k: nat)
    ensures
        pair_sum(pairs, g, n, k) == chained(lit(0), pair_terms(pairs, g, n, k)),
    decreases k,
{
    if k > 0 {
        lemma_pairs_order(pairs, g, n, (k - 1) as nat);
        let terms = pair_terms(pairs, g, n, k);
        assert(terms.drop_last() =~= pair_terms(pairs, g, n, (k - 1) as nat));
    }
}

proof fn lemma_locks_order(
    form: Binary32,
    lock_us: Seq<u32>,
    g: Seq<Binary32>,
    n: nat,
    max_h: Binary32,
    k: nat,
)
    ensures
        locked_form(form, lock_us, g, n, max_h, k) == chained(
            form,
            lock_terms(lock_us, g, n, max_h, k),
        ),
    decreases k,
{
    if k > 0 {
        lemma_locks_order(form, lock_us, g, n, max_h, (k - 1) as nat);
        let terms = lock_terms(lock_us, g, n, max_h, k);
        assert(terms.drop_last() =~= lock_terms(lock_us, g, n, max_h, (k - 1) as nat));
    }
}

/// The quadratic form in the order in which it is rounded: all pairs one after another, the sign
/// turned, and then all soft locks one after another. The step size is the squared length of the
/// gradient over it; it is zero where the form is zero, an infinity or a NaN.
pub proof fn law_form_order(
    g: Seq<Binary32>,
    n: nat,
    pairs: Seq<ActivePair>,
    lock_us: Seq<u32>,
    max_h: Binary32,
)
    ensures
        ({
            let form = chained(
                chained(lit(0), pair_terms(pairs, g, n, pairs.len())).negated(),
                lock_terms(lock_us, g, n, max_h, lock_us.len()),
            );
            &&& hessian_form(g, n, pairs, lock_us, max_h) == form
            &&& step_size(g, n, pairs, lock_us, max_h) == if form.finite() && !form.same(lit(0)) {
                squared_length(g, n).over(form)
            } else {
                lit(0)
            }
        }),
{
    lemma_pairs_order(pairs, g, n, pairs.len());
    lemma_locks_order(
        pair_sum(pairs, g, n, pairs.len()).negated(),
        lock_us,
        g,
        n,
        max_h,
        lock_us.len(),
    );
}

proof fn lemma_diagonal_prefix(
    pairs: Seq<ActivePair>,
    p: ActivePair,
    w: int,
    axis: Axis,
    k: nat,
)
    requires
        k <= pairs.len(),
    ensures
        diagonal(pairs.push(p), w, axis, k) == diagonal(pairs, w, axis, k),
    decreases k,
{
    if k > 0 {
        lemma_diagonal_prefix(pairs, p, w, axis, (k - 1) as nat);
    }
}

/// One more active pair takes its entries away from the diagonal at its two nodes, and leaves the
/// rest of the diagonal as it is. Without pairs the diagonal is zero.
pub proof fn law_pair_on_diagonal(pairs: Seq<ActivePair>, p: ActivePair, n: nat, w: int)
    requires
        0 <= w < n,
    ensures
        diagonals(Seq::empty(), n)[w] == lit(0),
        diagonals(Seq::empty(), n)[n + w] == lit(0),
        diagonals(pairs.push(p), n)[w] == if p.u == w || p.v == w {
            diagonals(pairs, n)[w].minus(p.idk_x)
        } else {
            diagonals(pairs, n)[w]
        },
        diagonals(pairs.push(p), n)[n + w] == if p.u == w || p.v == w {
            diagonals(pairs, n)[n + w].minus(p.idk_y)
        } else {
            diagonals(pairs, n)[n + w]
        },
{
    lemma_diagonal_prefix(pairs, p, w, Axis::X, pairs.len());
    lemma_diagonal_prefix(pairs, p, w, Axis::Y, pairs.len());
}

} // verus!
