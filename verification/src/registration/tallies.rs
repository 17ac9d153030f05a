//! Sums of fractions as sums over the places of their vectors.
use vstd::prelude::*;
use vstd::arithmetic::power::*;
use vstd::arithmetic::power2::*;
use crate::field::inverse_of;
use crate::sums::{lemma_sum_eq, lemma_sum_extend, lemma_sum_split, sum_to};
use super::accepted::lemma_lin_same;
use super::args::fraction_sum;
use super::certificate::{column_of, denominators, fingerprint, numerators};
use super::relation::{
    BlockView, EqualityView, LinView, Tab, lin_constant, lin_of, lin_plus, lin_shift, lin_value,
};

verus! {

/// The values of the vectors at a place.
pub open spec fn cells_at(f: spec_fn(Tab) -> Seq<int>, len: int, x: int) -> spec_fn(Tab) -> int {
    |t: Tab| column_of(f, t, len)[x]
}

/// The numerator of a sum of fractions at a place.
pub open spec fn num_at(f: spec_fn(Tab) -> Seq<int>, b: BlockView, x: int) -> int {
    lin_value(b.num, cells_at(f, pow2(b.log_len as nat) as int, x))
}

/// The parts of the denominator of a sum of fractions at a place.
pub open spec fn parts_at(f: spec_fn(Tab) -> Seq<int>, b: BlockView, x: int) -> Seq<int> {
    Seq::new(
        b.comps.len(),
        |i: int| lin_value(b.comps[i], cells_at(f, pow2(b.log_len as nat) as int, x)),
    )
}

/// Some parts joined by the powers of `beta`.
pub open spec fn joined_parts(v: Seq<int>, beta: int) -> int {
    sum_to(v.len() as int, |i: int| pow(beta, i as nat) * v[i])
}

/// One over a constant plus some parts joined by the powers of `beta`.
pub open spec fn one_over(alpha: int, beta: int) -> spec_fn(Seq<int>) -> int {
    |v: Seq<int>| inverse_of(alpha + joined_parts(v, beta))
}

/// The sum over the places of a block, with a weight for the parts.
pub open spec fn block_sum(
    f: spec_fn(Tab) -> Seq<int>,
    b: BlockView,
    h: spec_fn(Seq<int>) -> int,
) -> int {
    sum_to(pow2(b.log_len as nat) as int, |x: int| num_at(f, b, x) * h(parts_at(f, b, x)))
}

/// The sum over the places of the first `n` blocks.
pub open spec fn blocks_sum(
    f: spec_fn(Tab) -> Seq<int>,
    bs: Seq<BlockView>,
    h: spec_fn(Seq<int>) -> int,
    n: int,
) -> int
    decreases n,
{
    if n <= 0 {
        0
    } else {
        blocks_sum(f, bs, h, n - 1) + block_sum(f, bs[n - 1], h)
    }
}

/// The two sides of an equality are equal, with a weight for the parts.
pub open spec fn sides_meet(
    f: spec_fn(Tab) -> Seq<int>,
    x: EqualityView,
    h: spec_fn(Seq<int>) -> int,
) -> bool {
    blocks_sum(f, x.left, h, x.left.len() as int) == blocks_sum(
        f,
        x.right,
        h,
        x.right.len() as int,
    )
}

/// A sum of fractions is the sum over its places.
pub proof fn lemma_fraction_block(
    f: spec_fn(Tab) -> Seq<int>,
    b: BlockView,
    alpha: int,
    beta: int,
)
    ensures
        fraction_sum(numerators(f, b), denominators(f, b, alpha, beta)) == block_sum(
            f,
            b,
            one_over(alpha, beta),
        ),
{
    let len = pow2(b.log_len as nat) as int;
    let num = numerators(f, b);
    let den = denominators(f, b, alpha, beta);
    let h = one_over(alpha, beta);
    let a = |i: int| num[i] * inverse_of(den[i]);
    let d = |x: int| num_at(f, b, x) * h(parts_at(f, b, x));
    assert forall|x: int| 0 <= x < len implies #[trigger] a(x) == d(x) by {
        let g = |t: Tab| column_of(f, t, len)[x];
        let k = cells_at(f, len, x);
        lemma_lin_same(b.num, g, k);
        let v = parts_at(f, b, x);
        let s = |i: int| pow(beta, i as nat) * lin_value(b.comps[i], g);
        let t = |i: int| pow(beta, i as nat) * v[i];
        assert forall|i: int| 0 <= i < v.len() implies #[trigger] s(i) == t(i) by {
            lemma_lin_same(b.comps[i], g, k);
        }
        lemma_sum_eq(v.len() as int, s, t);
        assert(num[x] == lin_value(b.num, g));
        assert(den[x] == alpha + fingerprint(b.comps, g, beta));
    }
    lemma_sum_eq(len, a, d);
}

/// The values of the shapes that expressions have.
pub proof fn lemma_lins(g: spec_fn(Tab) -> int)
    ensures
        forall|t: Tab| #[trigger] lin_value(lin_of(t), g) == g(t),
        forall|x: int| #[trigger] lin_value(lin_constant(x), g) == x,
        forall|l: LinView, x: int, t: Tab|
            #[trigger] lin_value(lin_plus(l, x, t), g) == lin_value(l, g) + x * g(t),
        forall|l: LinView, x: int|
            #[trigger] lin_value(lin_shift(l, x), g) == lin_value(l, g) + x,
{
    reveal_with_fuel(sum_to, 3);
    assert forall|t: Tab| #[trigger] lin_value(lin_of(t), g) == g(t) by {
        assert(1 * g(t) == g(t));
    }
    assert forall|l: LinView, x: int, t: Tab| #[trigger]
        lin_value(lin_plus(l, x, t), g) == lin_value(l, g) + x * g(t) by {
        let m = lin_plus(l, x, t);
        let n = l.terms.len() as int;
        let a = |k: int| l.terms[k].0 * g(l.terms[k].1);
        let b = |k: int| m.terms[k].0 * g(m.terms[k].1);
        assert forall|k: int| 0 <= k < n implies #[trigger] a(k) == b(k) by {
            assert(m.terms[k] == l.terms[k]);
        }
        lemma_sum_eq(n, a, b);
        assert(m.terms[n] == (x, t));
        assert(sum_to(n + 1, b) == sum_to(n, b) + b(n));
    }
    assert forall|l: LinView, x: int| #[trigger] lin_value(lin_shift(l, x), g) == lin_value(l, g)
        + x by {
        let m = lin_shift(l, x);
        let a = |k: int| l.terms[k].0 * g(l.terms[k].1);
        let b = |k: int| m.terms[k].0 * g(m.terms[k].1);
        lemma_sum_eq(l.terms.len() as int, a, b);
    }
}

/// A block whose numerators vanish from some place on is a sum over the first places.
pub proof fn lemma_block_first(
    f: spec_fn(Tab) -> Seq<int>,
    b: BlockView,
    h: spec_fn(Seq<int>) -> int,
    n: int,
    g: spec_fn(int) -> int,
)
    requires
        0 <= n <= pow2(b.log_len as nat),
        forall|x: int| 0 <= x < n ==> num_at(f, b, x) * h(parts_at(f, b, x)) == #[trigger] g(x),
        forall|x: int| n <= x < pow2(b.log_len as nat) ==> #[trigger] num_at(f, b, x) == 0,
    ensures
        block_sum(f, b, h) == sum_to(n, g),
{
    let d = |x: int| num_at(f, b, x) * h(parts_at(f, b, x));
    assert forall|x: int| n <= x < pow2(b.log_len as nat) implies #[trigger] d(x) == 0 by {
        assert(num_at(f, b, x) == 0);
        assert(0 * h(parts_at(f, b, x)) == 0);
    }
    lemma_sum_extend(n, pow2(b.log_len as nat) as int, d);
    assert forall|x: int| 0 <= x < n implies #[trigger] d(x) == g(x) by {}
    lemma_sum_eq(n, d, g);
}

/// A sum of equal terms.
pub proof fn lemma_sum_same(n: int, c: int)
    requires
        0 <= n,
    ensures
        sum_to(n, |i: int| c) == n * c,
    decreases n,
{
    if n > 0 {
        lemma_sum_same(n - 1, c);
        assert((n - 1) * c + c == n * c) by (nonlinear_arith);
    } else {
        assert(0 * c == 0);
    }
}

/// A sum of sums over parts that follow each other.
pub proof fn lemma_sum_parts(n: int, start: spec_fn(int) -> int, g: spec_fn(int) -> int)
    requires
        0 <= n,
        start(0) == 0,
        forall|i: int, j: int| 0 <= i <= j <= n ==> #[trigger] start(i) <= #[trigger] start(j),
    ensures
        sum_to(start(n), g) == sum_to(
            n,
            |i: int| sum_to(start(i + 1) - start(i), |r: int| g(start(i) + r)),
        ),
    decreases n,
{
    if n > 0 {
        lemma_sum_parts(n - 1, start, g);
        let s = start(n - 1);
        let d = start(n) - s;
        assert(start(0) <= s);
        lemma_sum_split(s, d, g);
        let a = |i: int| sum_to(start(i + 1) - start(i), |r: int| g(start(i) + r));
        lemma_sum_eq(d, |i: int| g(s + i), |r: int| g(start(n - 1) + r));
        assert(a(n - 1) == sum_to(d, |r: int| g(start(n - 1) + r)));
    }
}

/// The sum over two sequences, one after the other.
pub proof fn lemma_sum_concat(a: Seq<int>, b: Seq<int>, v: spec_fn(int) -> int)
    ensures
        sum_to((a + b).len() as int, |k: int| v((a + b)[k])) == sum_to(
            a.len() as int,
            |k: int| v(a[k]),
        ) + sum_to(b.len() as int, |k: int| v(b[k])),
{
    let c = a + b;
    let g = |k: int| v(c[k]);
    let n = a.len() as int;
    let m = b.len() as int;
    lemma_sum_split(n, m, g);
    lemma_sum_eq(n, g, |k: int| v(a[k]));
    lemma_sum_eq(m, |i: int| g(n + i), |k: int| v(b[k]));
    lemma_sum_eq(n + m, g, |k: int| v((a + b)[k]));
}

} // verus!
