//! The values at a point of tables that a verifier can evaluate by itself.
use vstd::prelude::*;
use vstd::arithmetic::power::*;
use vstd::arithmetic::power2::*;
use crate::openings::lemma_product_first;
use crate::poly::{
    at, complement, eq_at, eq_points, eq_prefix, fold, law_eq_of_eq, lemma_eq_total,
    lemma_mle_constant, lemma_mle_fold, lemma_prod_at_last, min, mle, ones_prefix,
};
use crate::sparse::{
    affine, cumulated, entry_weights, eq_table, fingerprints, gamma_at, gamma_table, identity_at,
    pad, row_table, row_table_at, shifted, slice_weights, weight_at,
};
use crate::sums::{
    lemma_pow2_step, lemma_product_eq, lemma_sum_add, lemma_sum_eq, lemma_sum_scale,
    lemma_sum_split, sum_to,
};

verus! {

/// The value of a sequence with a multiple of another added.
pub proof fn lemma_mle_affine(a: Seq<int>, b: Seq<int>, beta: int, p: Seq<int>)
    requires
        a.len() == b.len(),
    ensures
        mle(affine(a, b, beta), p) == mle(a, p) + beta * mle(b, p),
{
    let n = a.len() as int;
    let x = |i: int| a[i] * eq_at(p, i);
    let y = |i: int| b[i] * eq_at(p, i);
    let z = |i: int| beta * y(i);
    lemma_sum_scale(n, beta, y);
    lemma_sum_add(n, x, z);
    let c = affine(a, b, beta);
    let l = |i: int| c[i] * eq_at(p, i);
    let r = |i: int| x(i) + z(i);
    assert forall|i: int| 0 <= i < n implies #[trigger] l(i) == r(i) by {
        let u = a[i];
        let v = b[i];
        let e = eq_at(p, i);
        assert((u + beta * v) * e == u * e + beta * (v * e)) by (nonlinear_arith);
    }
    lemma_sum_eq(n, l, r);
}

/// The value of a sequence times a constant.
pub proof fn lemma_mle_scale(a: Seq<int>, b: Seq<int>, c: int, p: Seq<int>)
    requires
        a.len() == b.len(),
        forall|i: int| 0 <= i < a.len() ==> #[trigger] b[i] == c * a[i],
    ensures
        mle(b, p) == c * mle(a, p),
{
    let n = a.len() as int;
    let x = |i: int| a[i] * eq_at(p, i);
    lemma_sum_scale(n, c, x);
    let l = |i: int| b[i] * eq_at(p, i);
    let r = |i: int| c * x(i);
    assert forall|i: int| 0 <= i < n implies #[trigger] l(i) == r(i) by {
        let u = a[i];
        let e = eq_at(p, i);
        assert(b[i] == c * u);
        assert((c * u) * e == c * (u * e)) by (nonlinear_arith);
    }
    lemma_sum_eq(n, l, r);
}

/// The value of ones.
pub proof fn lemma_mle_ones(f: Seq<int>, p: Seq<int>)
    requires
        forall|i: int| 0 <= i < f.len() ==> #[trigger] f[i] == 1,
    ensures
        mle(f, p) == ones_prefix(p, f.len() as int),
{
    let a = |i: int| f[i] * eq_at(p, i);
    let b = |i: int| eq_at(p, i);
    assert forall|i: int| 0 <= i < f.len() implies #[trigger] a(i) == b(i) by {
        assert(f[i] == 1);
        assert(1 * eq_at(p, i) == eq_at(p, i));
    }
    lemma_sum_eq(f.len() as int, a, b);
}

/// The value of a sequence with a constant added.
pub proof fn lemma_mle_shifted(a: Seq<int>, alpha: int, p: Seq<int>)
    ensures
        mle(shifted(a, alpha), p) == mle(a, p) + alpha * ones_prefix(p, a.len() as int),
{
    let one = Seq::new(a.len(), |i: int| 1int);
    lemma_mle_ones(one, p);
    lemma_mle_affine(a, one, alpha, p);
    let b = affine(a, one, alpha);
    let c = shifted(a, alpha);
    assert forall|i: int| 0 <= i < a.len() implies b[i] == c[i] by {
        assert(alpha * 1 == alpha);
    }
    assert(b =~= c);
}

/// The value of the first entries of `eq_table`.
pub proof fn lemma_mle_eq_take(q: Seq<int>, p: Seq<int>, len: int)
    requires
        0 <= len <= pow2(q.len()),
    ensures
        mle(eq_table(q).take(len), p) == eq_prefix(q, p, len),
{
    let f = eq_table(q).take(len);
    lemma_sum_eq(
        len,
        |i: int| f[i] * eq_at(p, i),
        |i: int| eq_at(q, i) * eq_at(p, i),
    );
}

/// The value of `eq_table`.
pub proof fn lemma_mle_eq_table(q: Seq<int>, p: Seq<int>)
    requires
        q.len() == p.len(),
    ensures
        mle(eq_table(q), p) == eq_points(q, p, p.len() as int),
{
    law_eq_of_eq(q, p);
    assert(eq_table(q) =~= Seq::new(pow2(p.len()), |i: int| eq_at(q, i)));
}

/// The indices of a table.
pub open spec fn places(n: nat) -> Seq<int> {
    Seq::new(n, |i: int| i)
}

/// The value of the indices.
pub proof fn lemma_mle_places(p: Seq<int>)
    ensures
        mle(places(pow2(p.len())), p) == identity_at(p),
    decreases p.len(),
{
    let n = p.len();
    let f = places(pow2(n));
    if n == 0 {
        lemma_pow2_step(0);
        assert(p =~= Seq::<int>::empty());
        lemma_mle_constant(f);
    } else {
        let q = p.drop_first();
        let m = pow2((n - 1) as nat);
        lemma_pow2_step((n - 1) as nat);
        lemma_mle_fold(f, p);
        lemma_mle_places(q);
        let g = fold(f, p[0]);
        let id = places(m);
        let two = Seq::new(m, |i: int| 2 * id[i]);
        let one = Seq::new(m, |i: int| 1int);
        let r = p[0];
        assert(g =~= affine(two, one, r)) by {
            assert forall|i: int| 0 <= i < m implies g[i] == affine(two, one, r)[i] by {
                assert(1 * r == r && r * 1 == r) by (nonlinear_arith);
            }
        }
        lemma_mle_affine(two, one, r, q);
        lemma_mle_scale(id, two, 2, q);
        lemma_mle_ones(one, q);
        lemma_eq_total(q);
        assert(r * 1 == r);
        let t = |i: int| p[i] * pow2(i as nat);
        let u = |i: int| q[i] * pow2(i as nat);
        lemma_sum_split(1, n - 1, t);
        let t1 = |i: int| t(1 + i);
        let u2 = |i: int| 2 * u(i);
        assert forall|i: int| 0 <= i < n - 1 implies #[trigger] t1(i) == u2(i) by {
            lemma_pow2_step(i as nat);
            assert(q[i] == p[i + 1]);
            let a = q[i];
            let b = pow2(i as nat) as int;
            assert(a * (2 * b) == 2 * (a * b)) by (nonlinear_arith);
        }
        lemma_sum_eq(n - 1, t1, u2);
        lemma_sum_scale(n - 1, 2, u);
        reveal_with_fuel(sum_to, 2);
        assert(sum_to(1, t) == t(0));
        lemma_pow2_step(0);
        assert(t(0) == p[0] * 1);
    }
}

/// The value of the indices of a table, each plus a multiple of its entry.
pub proof fn lemma_mle_fingerprints(tab: Seq<int>, beta: int, p: Seq<int>)
    requires
        tab.len() == pow2(p.len()),
    ensures
        mle(fingerprints(tab, beta), p) == identity_at(p) + beta * mle(tab, p),
{
    let id = places(pow2(p.len()));
    lemma_mle_places(p);
    lemma_mle_affine(id, tab, beta, p);
    assert(fingerprints(tab, beta) =~= affine(id, tab, beta));
}

/// The value of the powers of `gamma`.
pub proof fn lemma_mle_gamma(gamma: int, p: Seq<int>)
    ensures
        mle(gamma_table(gamma, p.len()), p) == gamma_at(p, gamma),
    decreases p.len(),
{
    let n = p.len();
    let f = gamma_table(gamma, n);
    if n == 0 {
        lemma_pow2_step(0);
        assert(p =~= Seq::<int>::empty());
        lemma_mle_constant(f);
        lemma_pow0(gamma);
    } else {
        let q = p.drop_first();
        let m = pow2((n - 1) as nat);
        let g2 = gamma * gamma;
        let r = p[0];
        lemma_pow2_step((n - 1) as nat);
        lemma_mle_fold(f, p);
        lemma_mle_gamma(g2, q);
        let h = gamma_table(g2, (n - 1) as nat);
        let g = fold(f, r);
        let c = 1 + r * (gamma - 1);
        lemma_pow1(gamma);
        assert(pow(gamma, 2) == g2) by {
            reveal(pow);
            assert(pow(gamma, 2) == gamma * pow(gamma, 1));
        }
        assert forall|i: int| 0 <= i < m implies #[trigger] g[i] == c * h[i] by {
            let a = pow(gamma, (2 * i) as nat);
            lemma_pow_multiplies(gamma, 2, i as nat);
            assert(h[i] == a);
            reveal(pow);
            assert(pow(gamma, (2 * i + 1) as nat) == gamma * a);
            assert(a + (gamma * a - a) * r == (1 + r * (gamma - 1)) * a) by (nonlinear_arith);
        }
        assert(g.len() == h.len());
        lemma_mle_scale(h, g, c, q);
        let t = |i: int| 1 + p[i] * (pow(gamma, pow2(i as nat)) - 1);
        let u = |i: int| 1 + q[i] * (pow(g2, pow2(i as nat)) - 1);
        lemma_product_first(n as int, t);
        let t1 = |i: int| t(i + 1);
        assert forall|i: int| 0 <= i < n - 1 implies #[trigger] t1(i) == u(i) by {
            lemma_pow2_step(i as nat);
            assert(q[i] == p[i + 1]);
            lemma_pow_multiplies(gamma, 2, pow2(i as nat));
        }
        lemma_product_eq(n - 1, t1, u);
        lemma_pow2_step(0);
        assert(t(0) == c);
    }
}

proof fn lemma_eq_last(p: Seq<int>, i: int)
    requires
        p.len() > 0,
        0 <= i < pow2((p.len() - 1) as nat),
    ensures
        eq_at(p, i) == eq_at(p.take(p.len() - 1), i) * (1 - p[p.len() - 1]),
        eq_at(p, pow2((p.len() - 1) as nat) + i) == eq_at(p.take(p.len() - 1), i)
            * p[p.len() - 1],
{
    let n = p.len() - 1;
    let c = complement(p);
    lemma_pow2_step(n as nat);
    lemma_prod_at_last(c, p, i);
    lemma_prod_at_last(c, p, pow2(n as nat) + i);
    assert(c.drop_last() =~= complement(p.take(n)));
    assert(p.drop_last() =~= p.take(n));
    let h = pow2(n as nat) as int;
    vstd::arithmetic::div_mod::lemma_small_mod(i as nat, h as nat);
    vstd::arithmetic::div_mod::lemma_fundamental_div_mod_converse(h + i, h, 1, i);
}

/// The value of two tables one after the other.
pub proof fn lemma_mle_halves(a: Seq<int>, b: Seq<int>, p: Seq<int>)
    requires
        p.len() > 0,
        a.len() == pow2((p.len() - 1) as nat),
        b.len() == a.len(),
    ensures
        mle(a + b, p) == mle(a, p.take(p.len() - 1)) * (1 - p[p.len() - 1]) + mle(
            b,
            p.take(p.len() - 1),
        ) * p[p.len() - 1],
{
    let n = p.len() - 1;
    let m = a.len() as int;
    let q = p.take(n);
    let l = p[n];
    let f = a + b;
    let t = |i: int| f[i] * eq_at(p, i);
    lemma_sum_split(m, m, t);
    let x = |i: int| a[i] * eq_at(q, i);
    let y = |i: int| b[i] * eq_at(q, i);
    let x1 = |i: int| (1 - l) * x(i);
    let y1 = |i: int| l * y(i);
    let t1 = |i: int| t(m + i);
    assert forall|i: int| 0 <= i < m implies #[trigger] t(i) == x1(i) by {
        lemma_eq_last(p, i);
        let u = a[i];
        let e = eq_at(q, i);
        assert(u * (e * (1 - l)) == (1 - l) * (u * e)) by (nonlinear_arith);
    }
    assert forall|i: int| 0 <= i < m implies #[trigger] t1(i) == y1(i) by {
        lemma_eq_last(p, i);
        let u = b[i];
        let e = eq_at(q, i);
        assert(u * (e * l) == l * (u * e)) by (nonlinear_arith);
    }
    lemma_sum_eq(m, t, x1);
    lemma_sum_eq(m, t1, y1);
    lemma_sum_scale(m, 1 - l, x);
    lemma_sum_scale(m, l, y);
    let mx = mle(a, q);
    let my = mle(b, q);
    assert((1 - l) * mx == mx * (1 - l)) by (nonlinear_arith);
    assert(l * my == my * l) by (nonlinear_arith);
}

/// The value of the table for the rows.
pub proof fn lemma_mle_row_table(abc: Seq<int>, de: Seq<int>, p: Seq<int>)
    requires
        p.len() > 0,
    ensures
        mle(row_table(abc, de, (p.len() - 1) as nat), p) == row_table_at(abc, de, p),
{
    let log = p.len() - 1;
    let a = pad(abc, log);
    let d = pad(de, log);
    lemma_mle_halves(eq_table(a), eq_table(d), p);
    lemma_mle_eq_table(a, p.take(log));
    lemma_mle_eq_table(d, p.take(log));
}

/// As many weights as the slices have places.
pub proof fn lemma_slice_weights_len(lens: Seq<int>, r: int, n: int)
    requires
        0 <= n <= lens.len(),
        forall|i: int| 0 <= i < lens.len() ==> #[trigger] lens[i] >= 0,
    ensures
        slice_weights(lens, r, n).len() == cumulated(lens, n),
        cumulated(lens, n) >= 0,
    decreases n,
{
    if n > 0 {
        lemma_slice_weights_len(lens, r, n - 1);
        assert(lens[n - 1] >= 0);
    }
}

/// The lengths add up in order.
pub proof fn lemma_cumulated_mono(lens: Seq<int>, i: int, n: int)
    requires
        0 <= i <= n <= lens.len(),
        forall|i: int| 0 <= i < lens.len() ==> #[trigger] lens[i] >= 0,
    ensures
        0 <= cumulated(lens, i) <= cumulated(lens, n),
    decreases n,
{
    if i < n {
        lemma_cumulated_mono(lens, i, n - 1);
        assert(lens[n - 1] >= 0);
    } else if n > 0 {
        lemma_cumulated_mono(lens, i - 1, n - 1);
        assert(lens[n - 1] >= 0);
    }
}

proof fn lemma_mle_slices(lens: Seq<int>, r: int, n: int, p: Seq<int>)
    requires
        0 <= n <= lens.len(),
        forall|i: int| 0 <= i < lens.len() ==> #[trigger] lens[i] >= 0,
        cumulated(lens, lens.len() as int) <= pow2(p.len()),
    ensures
        mle(slice_weights(lens, r, n), p) == weight_at(p, lens, r, n),
    decreases n,
{
    if n > 0 {
        lemma_mle_slices(lens, r, n - 1, p);
        lemma_slice_weights_len(lens, r, n - 1);
        lemma_slice_weights_len(lens, r, n);
        lemma_cumulated_mono(lens, n, lens.len() as int);
        assert(lens[n - 1] >= 0);
        let top = pow2(p.len()) as int;
        let a = slice_weights(lens, r, n - 1);
        let f = slice_weights(lens, r, n);
        let m = a.len() as int;
        let k = lens[n - 1];
        let w = pow(r, (n - 1) as nat);
        let t = |i: int| f[i] * eq_at(p, i);
        lemma_sum_split(m, k, t);
        lemma_sum_eq(m, t, |i: int| a[i] * eq_at(p, i));
        let e = |i: int| eq_at(p, i);
        lemma_sum_split(m, k, e);
        let e1 = |i: int| e(m + i);
        let t1 = |i: int| t(m + i);
        let w1 = |i: int| w * e1(i);
        assert forall|i: int| 0 <= i < k implies #[trigger] t1(i) == w1(i) by {
            assert(f[m + i] == w);
        }
        lemma_sum_eq(k, t1, w1);
        lemma_sum_scale(k, w, e1);
        assert(sum_to(k, e1) == ones_prefix(p, m + k) - ones_prefix(p, m));
        assert(min(cumulated(lens, n), top) == m + k);
        assert(min(cumulated(lens, n - 1), top) == m);
    } else {
        assert(slice_weights(lens, r, n) =~= Seq::<int>::empty());
    }
}

/// The value of the weights of the entries of a group.
pub proof fn lemma_mle_weights(lens: Seq<int>, r: int, len: int, p: Seq<int>)
    requires
        forall|i: int| 0 <= i < lens.len() ==> #[trigger] lens[i] >= 0,
        cumulated(lens, lens.len() as int) <= len <= pow2(p.len()),
    ensures
        mle(entry_weights(lens, r, len), p) == weight_at(p, lens, r, lens.len() as int),
{
    let n = lens.len() as int;
    lemma_mle_slices(lens, r, n, p);
    lemma_slice_weights_len(lens, r, n);
    let f = slice_weights(lens, r, n);
    let g = entry_weights(lens, r, len);
    assert forall|i: int| 0 <= i < g.len() implies #[trigger] g[i] == at(f, i) by {}
    crate::poly::lemma_mle_pad(f, g, p);
}

} // verus!
