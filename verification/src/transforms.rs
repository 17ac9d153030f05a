//! The two transforms over a group of roots of unity undo each other.
use vstd::prelude::*;
use vstd::arithmetic::power::*;
use vstd::arithmetic::power2::*;
use crate::field::{
    cong, inverse_of, invertible, lemma_cong_ops, lemma_inverse_from, lemma_inverse_of,
    lemma_invertible_mul, lemma_invertible_one,
};
use crate::interpolation::lemma_sum_cong;
use crate::poly::at;
use crate::radix2group::{inverse_transform, primitive, root_of_unity, transform};
use crate::sums::{
    lemma_pow2_step, lemma_sum_eq, lemma_sum_scale, lemma_sum_single, lemma_sum_split,
    lemma_sum_swap, sum_to,
};
use crate::units::law_word_invertible;

verus! {

proof fn lemma_pow_cong(a: int, b: int, e: nat)
    requires
        cong(a, b),
    ensures
        cong(pow(a, e), pow(b, e)),
    decreases e,
{
    reveal(pow);
    if e > 0 {
        lemma_pow_cong(a, b, (e - 1) as nat);
        lemma_cong_ops(a, b, pow(a, (e - 1) as nat), pow(b, (e - 1) as nat));
    }
}

proof fn lemma_pow_minus(e: nat)
    ensures
        pow(-1, e) == if e % 2 == 0 {
            1int
        } else {
            -1
        },
    decreases e,
{
    reveal(pow);
    if e > 0 {
        lemma_pow_minus((e - 1) as nat);
    }
}

/// The powers of a number from the zeroth on.
pub open spec fn power_sum(x: int, n: int) -> int {
    sum_to(n, |j: int| pow(x, j as nat))
}

/// The powers of a root of unity other than one add up to zero.
proof fn lemma_geometric(w: int, k: nat, d: int)
    requires
        k >= 1,
        cong(pow(w, pow2((k - 1) as nat)), -1),
        0 < d < pow2(k),
    ensures
        cong(power_sum(pow(w, d as nat), pow2(k) as int), 0),
    decreases k,
{
    let m = pow2((k - 1) as nat) as int;
    lemma_pow2_step((k - 1) as nat);
    let x = pow(w, d as nat);
    let xm = pow(x, m as nat);
    let p = |j: int| pow(x, j as nat);
    lemma_sum_split(m, m, p);
    let q = |i: int| p(m + i);
    let r = |i: int| xm * p(i);
    assert forall|i: int| 0 <= i < m implies #[trigger] q(i) == r(i) by {
        lemma_pow_adds(x, m as nat, i as nat);
    }
    lemma_sum_eq(m, q, r);
    lemma_sum_scale(m, xm, p);
    let s = sum_to(m, p);
    assert(sum_to(m + m, p) == s + xm * s);
    if d % 2 == 1 {
        lemma_pow_multiplies(w, d as nat, m as nat);
        lemma_pow_multiplies(w, m as nat, d as nat);
        assert(d * m == m * d) by (nonlinear_arith);
        lemma_pow_cong(pow(w, m as nat), -1, d as nat);
        lemma_pow_minus(d as nat);
        lemma_cong_ops(xm, -1, s, s);
        lemma_cong_ops(s, s, xm * s, -1 * s);
        assert(s + -1 * s == 0);
    } else {
        lemma_pow2_step(0);
        let e = d / 2;
        let w2 = pow(w, 2);
        let half = (k - 2) as nat;
        lemma_pow2_step(half);
        lemma_pow_multiplies(w, 2, pow2(half));
        lemma_pow_multiplies(w, 2, e as nat);
        lemma_geometric(w2, (k - 1) as nat, e);
        let p2 = |j: int| pow(pow(w2, e as nat), j as nat);
        lemma_sum_eq(m, p, p2);
        lemma_cong_ops(s, 0, xm, xm);
        lemma_cong_ops(s, 0, xm * s, xm * 0);
        assert(xm * s == s * xm) by (nonlinear_arith);
        assert(0 * xm == 0 && xm * 0 == 0);
    }
}

proof fn lemma_pow2_invertible(k: nat)
    ensures
        invertible(pow2(k) as int),
    decreases k,
{
    if k == 0 {
        lemma_pow2_step(0);
        vstd::arithmetic::power2::lemma2_to64();
        lemma_invertible_one();
    } else {
        lemma_pow2_invertible((k - 1) as nat);
        lemma_pow2_step((k - 1) as nat);
        law_word_invertible(2);
        lemma_invertible_mul(2, pow2((k - 1) as nat) as int);
    }
}

/// The sum over the group of two powers: the order if they undo each other, zero if not.
proof fn lemma_orthogonal(w: int, v: int, k: nat, l: int, i: int)
    requires
        cong(w * v, 1),
        k >= 1 ==> cong(pow(w, pow2((k - 1) as nat)), -1),
        0 <= l < pow2(k),
        0 <= i < pow2(k),
    ensures
        cong(
            sum_to(pow2(k) as int, |j: int| pow(w, (j * l) as nat) * pow(v, (i * j) as nat)),
            if l == i {
                pow2(k) as int
            } else {
                0
            },
        ),
{
    let n = pow2(k) as int;
    let g = |j: int| pow(w, (j * l) as nat) * pow(v, (i * j) as nat);
    // equal exponents cancel
    assert forall|e: nat| cong(#[trigger] pow(w, e) * pow(v, e), 1) by {
        lemma_pow_distributes(w, v, e);
        lemma_pow_cong(w * v, 1, e);
        lemma1_pow(e);
    }
    if l == i {
        let one = |j: int| 1int;
        assert forall|j: int| 0 <= j < n implies cong(#[trigger] g(j), one(j)) by {
            assert(j * l == i * j) by (nonlinear_arith)
                requires
                    l == i,
            ;
            assert(i * j >= 0) by (nonlinear_arith)
                requires
                    i >= 0,
                    j >= 0,
            ;
            assert(cong(pow(w, (j * l) as nat) * pow(v, (j * l) as nat), 1));
        }
        lemma_sum_cong(n, g, one);
        lemma_ones(n);
        lemma_sum_eq(n, one, |j: int| 1int);
    } else {
        assert(k >= 1) by {
            vstd::arithmetic::power2::lemma2_to64();
        }
        let up = l > i;
        let d = if up {
            l - i
        } else {
            i - l
        };
        let b = if up {
            w
        } else {
            v
        };
        let x = pow(b, d as nat);
        let p = |j: int| pow(x, j as nat);
        assert forall|j: int| 0 <= j < n implies cong(#[trigger] g(j), p(j)) by {
            let low = if up {
                i * j
            } else {
                j * l
            };
            assert(low >= 0 && d * j >= 0) by (nonlinear_arith)
                requires
                    i >= 0,
                    j >= 0,
                    l >= 0,
                    d >= 0,
                    low == i * j || low == j * l,
            ;
            lemma_pow_multiplies(b, d as nat, j as nat);
            let y = pow(w, low as nat) * pow(v, low as nat);
            assert(cong(pow(w, low as nat) * pow(v, low as nat), 1));
            if up {
                assert(j * l == d * j + low) by (nonlinear_arith)
                    requires
                        d == l - i,
                        low == i * j,
                ;
                lemma_pow_adds(w, (d * j) as nat, low as nat);
                let a = pow(w, (d * j) as nat);
                let a1 = pow(w, low as nat);
                let a2 = pow(v, low as nat);
                assert((a * a1) * a2 == a * (a1 * a2)) by (nonlinear_arith);
                lemma_cong_ops(a, a, y, 1);
                assert(a * 1 == a);
            } else {
                assert(i * j == d * j + low) by (nonlinear_arith)
                    requires
                        d == i - l,
                        low == j * l,
                ;
                lemma_pow_adds(v, (d * j) as nat, low as nat);
                let a = pow(v, (d * j) as nat);
                let a1 = pow(w, low as nat);
                let a2 = pow(v, low as nat);
                assert(a1 * (a * a2) == a * (a1 * a2)) by (nonlinear_arith);
                lemma_cong_ops(a, a, y, 1);
                assert(a * 1 == a);
            }
        }
        lemma_sum_cong(n, g, p);
        assert(cong(pow(b, pow2((k - 1) as nat)), -1)) by {
            let e = pow2((k - 1) as nat);
            let a = pow(w, e);
            let a2 = pow(v, e);
            assert(cong(pow(w, e) * pow(v, e), 1));
            lemma_cong_ops(a, -1, a2, a2);
            assert(-1 * a2 == -a2);
            assert(cong(-a2, 1));
            lemma_cong_ops(-1, -1, -a2, 1);
            assert(-1 * -a2 == a2);
        }
        lemma_geometric(b, k, d);
    }
}

proof fn lemma_ones(n: int)
    requires
        0 <= n,
    ensures
        sum_to(n, |j: int| 1int) == n,
    decreases n,
{
    if n > 0 {
        lemma_ones(n - 1);
    }
}

/// The transform of the coefficients of a polynomial, or of numbers that are congruent to
/// it, is taken back to the coefficients by the inverse transform.
#[verifier::rlimit(40)]
#[verifier::spinoff_prover]
pub proof fn law_transforms(v: Seq<int>, u: Seq<int>, k: nat, i: int)
    requires
        primitive(pow2(k) as int),
        u.len() == pow2(k),
        forall|j: int|
            0 <= j < pow2(k) ==> cong(#[trigger] u[j], transform(v, pow2(k) as int)[j]),
        0 <= i < pow2(k),
    ensures
        cong(inverse_transform(u, pow2(k) as int)[i], at(v, i)),
{
    let n = pow2(k) as int;
    let w = root_of_unity(n);
    assert(invertible(w)) by {
        reveal(pow);
        lemma_inverse_from(w, pow(w, (n - 1) as nat));
    }
    lemma_inverse_of(w);
    let x = inverse_of(w);
    lemma_pow2_invertible(k);
    lemma_inverse_of(n);
    let inv = inverse_of(n);
    if k >= 1 {
        lemma_pow2_step((k - 1) as nat);
    }
    let t = |j: int, l: int| at(v, l) * (pow(w, (j * l) as nat) * pow(x, (i * j) as nat));
    let a = |j: int| at(u, j) * pow(x, (i * j) as nat);
    let b = |j: int| sum_to(n, |l: int| t(j, l));
    assert forall|j: int| 0 <= j < n implies cong(#[trigger] a(j), b(j)) by {
        let y = pow(x, (i * j) as nat);
        let s = |l: int| at(v, l) * pow(w, (j * l) as nat);
        assert(transform(v, n)[j] == sum_to(n, s)) by {
            lemma_sum_eq(n, s, |l: int| at(v, l) * pow(root_of_unity(n), (j * l) as nat));
        }
        assert(cong(u[j], transform(v, n)[j]));
        lemma_cong_ops(u[j], sum_to(n, s), y, y);
        lemma_sum_scale(n, y, s);
        let ys = |l: int| y * s(l);
        let tj = |l: int| t(j, l);
        assert forall|l: int| 0 <= l < n implies #[trigger] ys(l) == tj(l) by {
            let c = at(v, l);
            let e = pow(w, (j * l) as nat);
            assert(y * (c * e) == c * (e * y)) by (nonlinear_arith);
        }
        lemma_sum_eq(n, ys, tj);
        assert(y * sum_to(n, s) == sum_to(n, s) * y) by (nonlinear_arith);
    }
    lemma_sum_cong(n, a, b);
    lemma_sum_swap(n, n, t);
    let c = |l: int| sum_to(n, |j: int| t(j, l));
    let d = |l: int|
        at(v, l) * crate::sparse::one_if(l == i) * n;
    assert forall|l: int| 0 <= l < n implies cong(#[trigger] c(l), d(l)) by {
        let g = |j: int| pow(w, (j * l) as nat) * pow(x, (i * j) as nat);
        let z = at(v, l);
        lemma_orthogonal(w, x, k, l, i);
        lemma_sum_scale(n, z, g);
        lemma_sum_eq(n, |j: int| z * g(j), |j: int| t(j, l));
        let s = sum_to(n, g);
        if l == i {
            lemma_cong_ops(z, z, s, n);
            assert(z * 1 == z);
        } else {
            lemma_cong_ops(z, z, s, 0);
            assert(z * 0 == 0);
            assert(0 * n == 0);
        }
    }
    lemma_sum_cong(n, c, d);
    assert forall|l: int| 0 <= l < n && l != i implies #[trigger] d(l) == 0 by {
        let z = at(v, l);
        assert(z * 0 == 0 && 0 * n == 0);
    }
    lemma_sum_single(n, i, d);
    let z = at(v, i);
    assert(d(i) == z * n) by {
        assert(z * 1 == z);
    }
    let total = sum_to(n, a);
    assert(cong(total, z * n));
    assert(inverse_transform(u, n)[i] == inv * total) by {
        lemma_sum_eq(n, a, |j: int| at(u, j) * pow(inverse_of(root_of_unity(n)), (i * j) as nat));
    }
    lemma_cong_ops(inv, inv, total, z * n);
    assert(inv * (z * n) == z * (n * inv)) by (nonlinear_arith);
    lemma_cong_ops(z, z, n * inv, 1);
    assert(z * 1 == z);
}

} // verus!
