//! How displacing coincident nodes ends.
use crate::binary32::Binary32;
use crate::countdown::limb;
use crate::model::separated;
use crate::motion::{
    displaced, displaced_times, drifted, drifted_row, ended, ends, ends_after, rounds, settled,
    Drift,
};
use vstd::arithmetic::power::{lemma_pow_positive, pow};
use vstd::prelude::*;
use vstd::set_lib::{lemma_int_range, lemma_len_subset, set_int_range};

verus! {

/// How many states the positions of `n` nodes and the generator have together.
pub open spec fn round_limit(n: nat) -> nat {
    pow(limb(), n + 1) as nat
}

/// Where displacing ends after some number of rounds, there is a first such number.
proof fn lemma_first_end(n: nat, min_d: Binary32, d: Drift, k: nat)
    requires
        ended(n, displaced_times(n, min_d, d, k).x),
    ensures
        exists|j: nat| j <= k && #[trigger] ends_after(n, min_d, d, j),
    decreases k,
{
    if exists|j: nat| j < k && ended(n, (#[trigger] displaced_times(n, min_d, d, j)).x) {
        let j = choose|j: nat| j < k && ended(n, (#[trigger] displaced_times(n, min_d, d, j)).x);
        lemma_first_end(n, min_d, d, j);
    } else {
        assert(ends_after(n, min_d, d, k));
    }
}

/// The first end is the only one.
proof fn lemma_one_end(n: nat, min_d: Binary32, d: Drift, j: nat, k: nat)
    requires
        ends_after(n, min_d, d, j),
        ends_after(n, min_d, d, k),
    ensures
        j == k,
{
    assert(ended(n, displaced_times(n, min_d, d, j).x));
    assert(ended(n, displaced_times(n, min_d, d, k).x));
}

/// Where displacing ends, it ends after its number of rounds, and not before.
pub proof fn law_settled(n: nat, min_d: Binary32, d: Drift)
    requires
        ends(n, min_d, d),
    ensures
        ends_after(n, min_d, d, rounds(n, min_d, d)),
        ended(n, settled(n, min_d, d).x),
{
    let k = choose|k: nat| ended(n, (#[trigger] displaced_times(n, min_d, d, k)).x);
    lemma_first_end(n, min_d, d, k);
}

/// Where displacing ends at once, nothing is displaced.
pub proof fn lemma_settled_here(n: nat, min_d: Binary32, d: Drift)
    requires
        ended(n, d.x),
    ensures
        ends(n, min_d, d),
        settled(n, min_d, d) == d,
{
    assert(displaced_times(n, min_d, d, 0) == d);
    assert(ends_after(n, min_d, d, 0));
    law_settled(n, min_d, d);
    lemma_one_end(n, min_d, d, 0, rounds(n, min_d, d));
}

/// One round brings the end nearer by one.
pub proof fn lemma_settled_next(n: nat, min_d: Binary32, d: Drift)
    requires
        !ended(n, d.x),
    ensures
        ends(n, min_d, d) == ends(n, min_d, displaced(n, min_d, d)),
        ends(n, min_d, d) ==> {
            &&& settled(n, min_d, displaced(n, min_d, d)) == settled(n, min_d, d)
            &&& rounds(n, min_d, displaced(n, min_d, d)) == rounds(n, min_d, d) - 1
        },
{
    let next = displaced(n, min_d, d);
    assert(displaced_times(n, min_d, d, 0) == d);
    if ends(n, min_d, next) {
        let k = choose|k: nat| ended(n, (#[trigger] displaced_times(n, min_d, next, k)).x);
        assert(displaced_times(n, min_d, d, k + 1) == displaced_times(n, min_d, next, k));
        assert(ended(n, displaced_times(n, min_d, d, k + 1).x));
    }
    if ends(n, min_d, d) {
        law_settled(n, min_d, d);
        let k = rounds(n, min_d, d);
        assert(k > 0);
        let j = (k - 1) as nat;
        assert(displaced_times(n, min_d, d, k) == displaced_times(n, min_d, next, j));
        assert forall|i: nat| i < j implies !ended(
            n,
            (#[trigger] displaced_times(n, min_d, next, i)).x,
        ) by {
            assert(displaced_times(n, min_d, d, i + 1) == displaced_times(n, min_d, next, i));
        }
        assert(ends_after(n, min_d, next, j));
        law_settled(n, min_d, next);
        lemma_one_end(n, min_d, next, j, rounds(n, min_d, next));
    }
}

/// Positions at which no two nodes coincide are left as they are, and take no random numbers.
pub proof fn law_separated_stays(n: nat, min_d: Binary32, d: Drift)
    requires
        separated(n, d.x),
    ensures
        ends(n, min_d, d),
        settled(n, min_d, d) == d,
{
    lemma_settled_here(n, min_d, d);
}

proof fn lemma_row_frame(n: nat, seen: Seq<Binary32>, min_d: Binary32, d: Drift, u: int, end: nat)
    requires
        2 * n <= d.x.len(),
        end <= n,
    ensures
        drifted_row(n, seen, min_d, d, u, end).x.len() == d.x.len(),
        forall|i: int|
            2 * n <= i < d.x.len() ==> #[trigger] drifted_row(n, seen, min_d, d, u, end).x[i]
                == d.x[i],
    decreases end,
{
    if end > 0 {
        lemma_row_frame(n, seen, min_d, d, u, (end - 1) as nat);
    }
}

proof fn lemma_drifted_frame(n: nat, seen: Seq<Binary32>, min_d: Binary32, d: Drift, r: nat)
    requires
        2 * n <= d.x.len(),
        r <= n,
    ensures
        drifted(n, seen, min_d, d, r).x.len() == d.x.len(),
        forall|i: int|
            2 * n <= i < d.x.len() ==> #[trigger] drifted(n, seen, min_d, d, r).x[i] == d.x[i],
    decreases r,
{
    if r > 0 {
        lemma_drifted_frame(n, seen, min_d, d, (r - 1) as nat);
        let before = drifted(n, seen, min_d, d, (r - 1) as nat);
        lemma_row_frame(n, seen, min_d, before, r - 1, n);
    }
}

/// Rounds keep the number of entries, and what stands past the coordinates of the nodes.
proof fn lemma_rounds_frame(n: nat, min_d: Binary32, d: Drift, k: nat)
    requires
        2 * n <= d.x.len(),
    ensures
        displaced_times(n, min_d, d, k).x.len() == d.x.len(),
        forall|i: int|
            2 * n <= i < d.x.len() ==> #[trigger] displaced_times(n, min_d, d, k).x[i] == d.x[i],
    decreases k,
{
    if k > 0 {
        lemma_drifted_frame(n, d.x, min_d, d, n);
        lemma_rounds_frame(n, min_d, displaced(n, min_d, d), (k - 1) as nat);
    }
}

/// The coordinates of the first `w` nodes as digits of a number.
spec fn position_code(n: nat, x: Seq<Binary32>, w: nat) -> int
    decreases w,
{
    if w == 0 {
        0
    } else {
        position_code(n, x, (w - 1) as nat) * limb() + x[w - 1].bits * 0x1_0000_0000 + x[n + (w
            - 1)].bits
    }
}

/// Positions and generator as one number.
spec fn state_code(n: nat, d: Drift) -> int {
    position_code(n, d.x, n) * limb() + d.draws
}

proof fn lemma_position_code(n: nat, x: Seq<Binary32>, w: nat)
    ensures
        0 <= position_code(n, x, w) < pow(limb(), w),
    decreases w,
{
    reveal(pow);
    if w > 0 {
        lemma_position_code(n, x, (w - 1) as nat);
        let c = position_code(n, x, (w - 1) as nat);
        let p = pow(limb(), (w - 1) as nat);
        assert(c * limb() + limb() <= limb() * p) by (nonlinear_arith)
            requires
                c + 1 <= p,
        ;
    }
}

proof fn lemma_position_code_injective(n: nat, x: Seq<Binary32>, y: Seq<Binary32>, w: nat)
    requires
        position_code(n, x, w) == position_code(n, y, w),
    ensures
        forall|v: int| 0 <= v < w ==> #[trigger] x[v] == y[v],
        forall|v: int| 0 <= v < w ==> #[trigger] x[n + v] == y[n + v],
    decreases w,
{
    if w > 0 {
        let a = position_code(n, x, (w - 1) as nat);
        let b = position_code(n, y, (w - 1) as nat);
        let (xa, ya) = (x[w - 1].bits as int, x[n + (w - 1)].bits as int);
        let (xb, yb) = (y[w - 1].bits as int, y[n + (w - 1)].bits as int);
        assert(a == b && xa == xb && ya == yb);
        lemma_position_code_injective(n, x, y, (w - 1) as nat);
    }
}

/// Rounds add up.
proof fn lemma_rounds_add(n: nat, min_d: Binary32, d: Drift, a: nat, b: nat)
    ensures
        displaced_times(n, min_d, d, a + b) == displaced_times(
            n,
            min_d,
            displaced_times(n, min_d, d, a),
            b,
        ),
    decreases a,
{
    if a > 0 {
        lemma_rounds_add(n, min_d, displaced(n, min_d, d), (a - 1) as nat, b);
    }
}

/// One round after the first ones.
pub proof fn lemma_one_more(n: nat, min_d: Binary32, d: Drift, k: nat)
    ensures
        displaced_times(n, min_d, d, k + 1) == displaced(n, min_d, displaced_times(n, min_d, d, k)),
{
    lemma_rounds_add(n, min_d, d, k, 1);
    let s = displaced_times(n, min_d, d, k);
    assert(displaced_times(n, min_d, s, 1) == displaced_times(n, min_d, displaced(n, min_d, s), 0));
}

/// States with the same number are the same, rounds after rounds.
proof fn lemma_same_state(n: nat, min_d: Binary32, d: Drift, i: nat, j: nat)
    requires
        2 * n <= d.x.len(),
        state_code(n, displaced_times(n, min_d, d, i)) == state_code(
            n,
            displaced_times(n, min_d, d, j),
        ),
    ensures
        displaced_times(n, min_d, d, i) == displaced_times(n, min_d, d, j),
{
    let a = displaced_times(n, min_d, d, i);
    let b = displaced_times(n, min_d, d, j);
    lemma_rounds_frame(n, min_d, d, i);
    lemma_rounds_frame(n, min_d, d, j);
    lemma_position_code(n, a.x, n);
    lemma_position_code(n, b.x, n);
    assert(position_code(n, a.x, n) == position_code(n, b.x, n) && a.draws == b.draws);
    lemma_position_code_injective(n, a.x, b.x, n);
    assert forall|k: int| 0 <= k < d.x.len() implies a.x[k] == b.x[k] by {
        if n <= k < 2 * n {
            let v = k - n;
            assert(a.x[n + v] == b.x[n + v]);
        }
    }
    assert(a =~= b);
}

/// Displacing that ends at all ends within as many rounds as there are states: a longer way would
/// visit one of them twice and go in a circle.
pub proof fn law_limit_suffices(n: nat, min_d: Binary32, d: Drift, k: nat)
    requires
        2 * n <= d.x.len(),
        ends_after(n, min_d, d, k),
    ensures
        k < round_limit(n),
{
    let limit = pow(limb(), n + 1);
    lemma_pow_positive(limb(), n + 1);
    let codes = Seq::new(
        k + 1,
        |i: int| state_code(n, displaced_times(n, min_d, d, i as nat)),
    );
    assert forall|i: int| 0 <= i < codes.len() implies 0 <= #[trigger] codes[i] < limit by {
        reveal(pow);
        let s = displaced_times(n, min_d, d, i as nat);
        lemma_position_code(n, s.x, n);
        let c = position_code(n, s.x, n);
        let p = pow(limb(), n);
        assert(c * limb() + limb() <= limb() * p) by (nonlinear_arith)
            requires
                c + 1 <= p,
        ;
    }
    assert(codes.no_duplicates()) by {
        assert forall|i: int, j: int| 0 <= i < j < codes.len() implies codes[i] != codes[j] by {
            if codes[i] == codes[j] {
                lemma_same_state(n, min_d, d, i as nat, j as nat);
                let rest = (k - j) as nat;
                lemma_rounds_add(n, min_d, d, i as nat, rest);
                lemma_rounds_add(n, min_d, d, j as nat, rest);
                assert(displaced_times(n, min_d, d, i as nat + rest) == displaced_times(
                    n,
                    min_d,
                    d,
                    k,
                ));
            }
        }
    }
    codes.unique_seq_to_set();
    lemma_int_range(0, limit);
    assert(codes.to_set().subset_of(set_int_range(0, limit))) by {
        assert forall|c: int| codes.to_set().contains(c) implies set_int_range(
            0,
            limit,
        ).contains(c) by {
            let i = choose|i: int| 0 <= i < codes.len() && codes[i] == c;
        }
    }
    lemma_len_subset(codes.to_set(), set_int_range(0, limit));
}

} // verus!
