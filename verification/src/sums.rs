//! Finite sums and products over the integers, and powers of two.
use vstd::prelude::*;
use vstd::arithmetic::power2::*;

verus! {

/// The sum of `f(0)` up to `f(n - 1)`.
pub open spec fn sum_to(n: int, f: spec_fn(int) -> int) -> int
    decreases n,
{
    if n <= 0 {
        0
    } else {
        sum_to(n - 1, f) + f(n - 1)
    }
}

/// The product of `f(0)` up to `f(n - 1)`.
pub open spec fn product_to(n: int, f: spec_fn(int) -> int) -> int
    decreases n,
{
    if n <= 0 {
        1
    } else {
        product_to(n - 1, f) * f(n - 1)
    }
}

pub proof fn lemma_sum_eq(n: int, f: spec_fn(int) -> int, g: spec_fn(int) -> int)
    requires
        forall|i: int| 0 <= i < n ==> #[trigger] f(i) == g(i),
    ensures
        sum_to(n, f) == sum_to(n, g),
    decreases n,
{
    if n > 0 {
        lemma_sum_eq(n - 1, f, g);
    }
}

pub proof fn lemma_product_eq(n: int, f: spec_fn(int) -> int, g: spec_fn(int) -> int)
    requires
        forall|i: int| 0 <= i < n ==> #[trigger] f(i) == g(i),
    ensures
        product_to(n, f) == product_to(n, g),
    decreases n,
{
    if n > 0 {
        lemma_product_eq(n - 1, f, g);
    }
}

pub proof fn lemma_sum_zero(n: int, f: spec_fn(int) -> int)
    requires
        forall|i: int| 0 <= i < n ==> #[trigger] f(i) == 0,
    ensures
        sum_to(n, f) == 0,
    decreases n,
{
    if n > 0 {
        lemma_sum_zero(n - 1, f);
    }
}

/// A sum does not change when only terms that are zero are added to it.
pub proof fn lemma_sum_extend(n: int, m: int, f: spec_fn(int) -> int)
    requires
        0 <= n <= m,
        forall|i: int| n <= i < m ==> #[trigger] f(i) == 0,
    ensures
        sum_to(n, f) == sum_to(m, f),
    decreases m - n,
{
    if n < m {
        lemma_sum_extend(n, m - 1, f);
    }
}

pub proof fn lemma_sum_add(n: int, f: spec_fn(int) -> int, g: spec_fn(int) -> int)
    ensures
        sum_to(n, |i: int| f(i) + g(i)) == sum_to(n, f) + sum_to(n, g),
    decreases n,
{
    if n > 0 {
        lemma_sum_add(n - 1, f, g);
    }
}

pub proof fn lemma_sum_sub(n: int, f: spec_fn(int) -> int, g: spec_fn(int) -> int)
    ensures
        sum_to(n, |i: int| f(i) - g(i)) == sum_to(n, f) - sum_to(n, g),
    decreases n,
{
    if n > 0 {
        lemma_sum_sub(n - 1, f, g);
    }
}

pub proof fn lemma_sum_scale(n: int, c: int, f: spec_fn(int) -> int)
    ensures
        sum_to(n, |i: int| c * f(i)) == c * sum_to(n, f),
    decreases n,
{
    if n > 0 {
        lemma_sum_scale(n - 1, c, f);
        assert(c * (sum_to(n - 1, f) + f(n - 1)) == c * sum_to(n - 1, f) + c * f(n - 1))
            by (nonlinear_arith);
    } else {
        assert(c * 0 == 0);
    }
}

/// A sum splits at any place.
pub proof fn lemma_sum_split(n: int, m: int, f: spec_fn(int) -> int)
    requires
        0 <= n,
        0 <= m,
    ensures
        sum_to(n + m, f) == sum_to(n, f) + sum_to(m, |i: int| f(n + i)),
    decreases m,
{
    if m > 0 {
        lemma_sum_split(n, m - 1, f);
    }
}

/// A sum over twice as many terms is the sum over its pairs of neighbours.
pub proof fn lemma_sum_pairs(m: int, f: spec_fn(int) -> int)
    requires
        0 <= m,
    ensures
        sum_to(2 * m, f) == sum_to(m, |i: int| f(2 * i) + f(2 * i + 1)),
    decreases m,
{
    if m > 0 {
        lemma_sum_pairs(m - 1, f);
        reveal_with_fuel(sum_to, 3);
        assert(2 * m - 2 == 2 * (m - 1));
    }
}

/// The order of summation can be exchanged.
pub proof fn lemma_sum_swap(n: int, m: int, f: spec_fn(int, int) -> int)
    ensures
        sum_to(n, |i: int| sum_to(m, |j: int| f(i, j))) == sum_to(
            m,
            |j: int| sum_to(n, |i: int| f(i, j)),
        ),
    decreases n,
{
    if n <= 0 {
        lemma_sum_zero(m, |j: int| sum_to(n, |i: int| f(i, j)));
    } else {
        lemma_sum_swap(n - 1, m, f);
        let a = |j: int| sum_to(n - 1, |i: int| f(i, j));
        let b = |j: int| f(n - 1, j);
        lemma_sum_add(m, a, b);
        lemma_sum_eq(
            m,
            |j: int| a(j) + b(j),
            |j: int| sum_to(n, |i: int| f(i, j)),
        );
        lemma_sum_eq(m, b, |j: int| f(n - 1, j));
        lemma_sum_eq(
            n - 1,
            |i: int| sum_to(m, |j: int| f(i, j)),
            |i: int| sum_to(m, |j: int| f(i, j)),
        );
    }
}

/// A sum with a single term that is not zero.
pub proof fn lemma_sum_single(n: int, k: int, f: spec_fn(int) -> int)
    requires
        0 <= k < n,
        forall|i: int| 0 <= i < n && i != k ==> #[trigger] f(i) == 0,
    ensures
        sum_to(n, f) == f(k),
    decreases n,
{
    if k == n - 1 {
        lemma_sum_zero(n - 1, f);
    } else {
        lemma_sum_single(n - 1, k, f);
    }
}

/// Two to the power of `n` doubles with each step.
pub proof fn lemma_pow2_step(n: nat)
    ensures
        pow2(0) == 1,
        pow2(n + 1) == 2 * pow2(n),
        pow2(n) >= 1,
{
    lemma2_to64();
    lemma_pow2_unfold(n + 1);
    lemma_pow2_pos(n);
}

pub proof fn lemma_pow2_mono(n: nat, m: nat)
    requires
        n <= m,
    ensures
        pow2(n) <= pow2(m),
    decreases m - n,
{
    if n < m {
        lemma_pow2_mono(n, (m - 1) as nat);
        lemma_pow2_step((m - 1) as nat);
    }
}

/// Powers of two that fit in a word have exponents below 64.
pub proof fn lemma_pow2_fits(n: nat)
    requires
        pow2(n) <= usize::MAX,
    ensures
        n < 64,
{
    if n >= 64 {
        lemma_pow2_mono(64, n);
        lemma2_to64_rest();
    }
}

/// Two to the power of `n`.
pub fn two_pow(n: usize) -> (out: usize)
    requires
        pow2(n as nat) <= usize::MAX,
    ensures
        out == pow2(n as nat),
{
    let mut out: usize = 1;
    proof {
        lemma_pow2_step(0);
    }
    for i in 0..n
        invariant
            out == pow2(i as nat),
            pow2(n as nat) <= usize::MAX,
    {
        proof {
            lemma_pow2_step(i as nat);
            lemma_pow2_mono((i + 1) as nat, n as nat);
        }
        out = out * 2;
    }
    out
}

} // verus!
