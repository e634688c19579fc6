//! A counter that counts down from a number of any size.
use vstd::arithmetic::power::pow;
use vstd::prelude::*;

verus! {

/// How many values one limb has.
pub open spec fn limb() -> int {
    0x1_0000_0000_0000_0000
}

/// A natural number as 64 bit limbs, the least first.
pub struct Countdown {
    limbs: Vec<u64>,
}

/// The number that the limbs from `k` on stand for.
spec fn value_from(limbs: Seq<u64>, k: nat) -> nat
    decreases limbs.len() - k,
{
    if k >= limbs.len() {
        0
    } else {
        limbs[k as int] as nat + limb() as nat * value_from(limbs, k + 1)
    }
}

/// Below the one in the last limb all limbs are zero, so the number is a power.
proof fn lemma_power(limbs: Seq<u64>, k: nat)
    requires
        limbs.len() > 0,
        k < limbs.len(),
        limbs.last() == 1,
        forall|i: int| 0 <= i < limbs.len() - 1 ==> #[trigger] limbs[i] == 0,
    ensures
        value_from(limbs, k) == pow(limb(), (limbs.len() - 1 - k) as nat),
    decreases limbs.len() - k,
{
    reveal(pow);
    if k + 1 < limbs.len() {
        lemma_power(limbs, k + 1);
        assert(limbs[k as int] == 0);
    } else {
        assert(value_from(limbs, k + 1) == 0);
    }
}

/// Only zeros make zero.
proof fn lemma_zeros(limbs: Seq<u64>, k: nat)
    ensures
        (value_from(limbs, k) == 0) == (forall|i: int|
            k <= i < limbs.len() ==> #[trigger] limbs[i] == 0),
    decreases limbs.len() - k,
{
    if k < limbs.len() {
        lemma_zeros(limbs, k + 1);
        let first = limbs[k as int];
        if value_from(limbs, k + 1) > 0 {
            assert(limb() * value_from(limbs, k + 1) > 0);
        }
    }
}

/// The value depends on the limbs that it counts alone.
proof fn lemma_same(a: Seq<u64>, b: Seq<u64>, k: nat)
    requires
        a.len() == b.len(),
        forall|i: int| k <= i < a.len() ==> a[i] == b[i],
    ensures
        value_from(a, k) == value_from(b, k),
    decreases a.len() - k,
{
    if k < a.len() {
        lemma_same(a, b, k + 1);
    }
}

/// Taking one from limb `i` and filling the zeros below it takes one from the number.
proof fn lemma_borrow(a: Seq<u64>, b: Seq<u64>, i: nat, k: nat)
    requires
        a.len() == b.len(),
        k <= i < a.len(),
        a[i as int] > 0,
        b[i as int] == a[i as int] - 1,
        forall|j: int| 0 <= j < i ==> #[trigger] a[j] == 0,
        forall|j: int| 0 <= j < i ==> #[trigger] b[j] == u64::MAX,
        forall|j: int| i < j < a.len() ==> a[j] == b[j],
    ensures
        value_from(b, k) == value_from(a, k) - 1,
    decreases i - k,
{
    if k == i {
        lemma_same(a, b, i + 1);
    } else {
        lemma_borrow(a, b, i, k + 1);
        assert(b[k as int] == u64::MAX);
        assert(limb() * (value_from(a, k + 1) - 1) == limb() * value_from(a, k + 1) - limb());
    }
}

impl Countdown {
    /// What is left to count.
    pub closed spec fn value(&self) -> nat {
        value_from(self.limbs@, 0)
    }

    /// The number of values that so many limbs have.
    pub fn new(limbs: usize) -> (c: Countdown)
        ensures
            c.value() == pow(limb(), limbs as nat),
    {
        let mut list: Vec<u64> = Vec::new();
        let mut i: usize = 0;
        while i < limbs
            invariant
                i <= limbs,
                list.len() == i,
                forall|j: int| 0 <= j < i ==> #[trigger] list[j] == 0,
            decreases limbs - i,
        {
            list.push(0);
            i = i + 1;
        }
        list.push(1);
        proof {
            lemma_power(list@, 0);
        }
        Countdown { limbs: list }
    }

    /// Whether nothing is left to count.
    pub fn is_zero(&self) -> (r: bool)
        ensures
            r == (self.value() == 0),
    {
        proof {
            lemma_zeros(self.limbs@, 0);
        }
        let mut i: usize = self.limbs.len();
        while i > 0
            invariant
                i <= self.limbs.len(),
                (self.value() == 0) == (forall|j: int|
                    0 <= j < self.limbs@.len() ==> #[trigger] self.limbs@[j] == 0),
                forall|j: int| i <= j < self.limbs@.len() ==> #[trigger] self.limbs@[j] == 0,
            decreases i,
        {
            i = i - 1;
            if self.limbs[i] != 0 {
                return false;
            }
        }
        true
    }

    /// Counts down by one.
    pub fn step(&mut self)
        requires
            old(self).value() > 0,
        ensures
            final(self).value() == old(self).value() - 1,
    {
        let ghost before = self.limbs@;
        proof {
            lemma_zeros(before, 0);
        }
        let mut i: usize = 0;
        while self.limbs[i] == 0
            invariant
                i < self.limbs.len(),
                self.limbs@.len() == before.len(),
                exists|j: int| i <= j < before.len() && #[trigger] before[j] != 0,
                forall|j: int| 0 <= j < i ==> #[trigger] before[j] == 0,
                forall|j: int| 0 <= j < i ==> #[trigger] self.limbs@[j] == u64::MAX,
                forall|j: int| i <= j < before.len() ==> #[trigger] self.limbs@[j] == before[j],
            decreases self.limbs.len() - i,
        {
            self.limbs.set(i, u64::MAX);
            let ghost j = choose|j: int| i <= j < before.len() && #[trigger] before[j] != 0;
            assert(before[j] != 0 && j != i);
            i = i + 1;
        }
        let limb: u64 = self.limbs[i];
        self.limbs.set(i, limb - 1);
        proof {
            lemma_borrow(before, self.limbs@, i as nat, 0);
        }
    }
}

} // verus!
