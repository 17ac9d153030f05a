//! Openings of commitments are accepted.
use vstd::prelude::*;
use vstd::arithmetic::power2::*;
use crate::field::{
    cong, inverse_of, invertible, lemma_cong_cancel, lemma_cong_ops, lemma_inverse_from,
    lemma_inverse_of, lemma_invertible_mul, lemma_invertible_one,
};
use crate::group::inner_product;
use crate::interpolation::lemma_sum_cong;
use crate::kzg::{
    VerParams, commit_of, evens, fold_chunks, fold_chunks_all, fold_monomial, lemma_log_of,
    lengthened, monomial, num_chunks, odds, ones, open_monomial, open_of, openable, resized, scale,
    srs_of, transform, ver_params_of, verify_of,
};
use crate::poly::{
    at, complement, eq_at, fold, fold_all, lemma_mle_constant, lemma_mle_fold_all, mle,
};
use crate::sums::{
    lemma_pow2_step, lemma_product_eq, lemma_sum_add, lemma_sum_eq, lemma_sum_extend,
    lemma_sum_pairs, lemma_sum_scale, lemma_sum_split, product_to, sum_to,
};

verus! {

/// The sums of the chunks of a vector, weighted by `w`.
pub open spec fn chunk_values(f: Seq<int>, w: Seq<int>) -> Seq<int> {
    Seq::new(
        num_chunks(f.len() as int, w.len() as int) as nat,
        |c: int| chunk_value(f, w, c),
    )
}

/// The sum of one chunk of a vector, weighted by `w`.
pub open spec fn chunk_value(f: Seq<int>, w: Seq<int>, c: int) -> int {
    sum_to(w.len() as int, |j: int| w[j] * at(f, c * w.len() + j))
}

/// A commitment holds the sums of the chunks, weighted by the parameters.
pub proof fn lemma_commit_chunks(srs: Seq<int>, f: Seq<int>)
    ensures
        commit_of(srs, f) == chunk_values(f, srs),
{
    let a = commit_of(srs, f);
    let b = chunk_values(f, srs);
    assert(a.len() == b.len());
    assert forall|c: int| 0 <= c < a.len() implies a[c] == b[c] by {
        lemma_sum_eq(
            srs.len() as int,
            |j: int| srs[j] * at(f, c * srs.len() + j),
            |j: int| srs[j] * at(f, c * srs.len() + j),
        );
    }
    assert(a =~= b);
}

pub proof fn lemma_num_chunks(len: int, n: int)
    requires
        0 < n,
        0 <= len,
    ensures
        0 <= num_chunks(len, n),
        len <= num_chunks(len, n) * n < len + n,
        len > 0 ==> num_chunks(len, n) >= 1,
{
    let c = num_chunks(len, n);
    assert(len <= c * n < len + n && c >= 0) by (nonlinear_arith)
        requires
            0 < n,
            0 <= len,
            c == (len + n - 1) / n,
    ;
    if len > 0 && c <= 0 {
        assert(c * n <= 0) by (nonlinear_arith)
            requires
                c <= 0,
                n > 0,
        ;
    }
}

/// Past the last chunk there is nothing.
pub proof fn lemma_chunk_outside(f: Seq<int>, w: Seq<int>, c: int)
    requires
        w.len() > 0,
        c >= num_chunks(f.len() as int, w.len() as int),
    ensures
        chunk_value(f, w, c) == 0,
{
    let n = w.len() as int;
    lemma_num_chunks(f.len() as int, n);
    assert(c * n >= num_chunks(f.len() as int, n) * n) by (nonlinear_arith)
        requires
            c >= num_chunks(f.len() as int, n),
            n > 0,
    ;
    let t = |j: int| w[j] * at(f, c * n + j);
    assert forall|j: int| 0 <= j < n implies #[trigger] t(j) == 0 by {
        assert(w[j] * 0 == 0);
    }
    crate::sums::lemma_sum_zero(n, t);
}

/// Folding the chunks folds their sums.
proof fn lemma_fold_chunk_values(f: Seq<int>, w: Seq<int>, r: int)
    requires
        w.len() > 0,
    ensures
        chunk_values(fold_chunks(f, w.len() as int, r), w) == fold(chunk_values(f, w), r),
{
    let n = w.len() as int;
    let g = fold_chunks(f, n, r);
    let m = (num_chunks(f.len() as int, n) + 1) / 2;
    lemma_num_chunks(f.len() as int, n);
    assert(num_chunks(m * n, n) == m) by {
        lemma_num_chunks(m * n, n);
        let c = num_chunks(m * n, n);
        assert(c == m) by (nonlinear_arith)
            requires
                m * n <= c * n < m * n + n,
                n > 0,
        ;
    }
    assert(m * n >= 0) by (nonlinear_arith)
        requires
            m >= 0,
            n > 0,
    ;
    let a = chunk_values(g, w);
    let b = fold(chunk_values(f, w), r);
    assert(a.len() == m && b.len() == m);
    assert forall|c: int| 0 <= c < m implies a[c] == b[c] by {
        let lo = |j: int| w[j] * at(f, 2 * c * n + j);
        let hi = |j: int| w[j] * at(f, (2 * c + 1) * n + j);
        let d = |j: int| hi(j) - lo(j);
        let t = |j: int| w[j] * at(g, c * n + j);
        assert forall|j: int| 0 <= j < n implies #[trigger] t(j) == (|j: int|
            lo(j) + (|j: int| r * d(j))(j))(j) by {
            assert((c * n + j) / n == c && (c * n + j) % n == j) by {
                vstd::arithmetic::div_mod::lemma_fundamental_div_mod_converse(
                    c * n + j,
                    n,
                    c,
                    j,
                );
            }
            assert(c * n + j < m * n) by (nonlinear_arith)
                requires
                    c < m,
                    0 <= j < n,
            ;
            assert(c * n >= 0) by (nonlinear_arith)
                requires
                    c >= 0,
                    n > 0,
            ;
            let x = at(f, 2 * c * n + j);
            let y = at(f, (2 * c + 1) * n + j);
            assert(at(g, c * n + j) == x + (y - x) * r);
            let k = w[j];
            assert(k * (x + (y - x) * r) == k * x + r * (k * y - k * x)) by (nonlinear_arith);
        }
        let rd = |j: int| r * d(j);
        lemma_sum_eq(n, t, |j: int| lo(j) + rd(j));
        lemma_sum_add(n, lo, rd);
        lemma_sum_scale(n, r, d);
        crate::sums::lemma_sum_sub(n, hi, lo);
        lemma_sum_eq(n, d, |j: int| hi(j) - lo(j));
        let cv = chunk_values(f, w);
        assert(chunk_value(f, w, 2 * c) == sum_to(n, lo));
        assert(chunk_value(f, w, 2 * c + 1) == sum_to(n, hi));
        if 2 * c + 1 >= cv.len() {
            lemma_chunk_outside(f, w, 2 * c + 1);
        }
        assert(at(cv, 2 * c) == sum_to(n, lo));
        assert(at(cv, 2 * c + 1) == sum_to(n, hi));
        let p = sum_to(n, lo);
        let q = sum_to(n, hi);
        assert(r * (q - p) == (q - p) * r) by (nonlinear_arith);
    }
    assert(a =~= b);
}

proof fn lemma_fold_all_chunk_values(f: Seq<int>, w: Seq<int>, u: Seq<int>)
    requires
        w.len() > 0,
    ensures
        chunk_values(fold_chunks_all(f, w.len() as int, u), w) == fold_all(chunk_values(f, w), u),
    decreases u.len(),
{
    if u.len() > 0 {
        let n = w.len() as int;
        lemma_fold_chunk_values(f, w, u[0]);
        lemma_fold_all_chunk_values(fold_chunks(f, n, u[0]), w, u.drop_first());
    }
}

/// Something is left of something.
proof fn lemma_fold_chunks_nonempty(f: Seq<int>, n: int, u: Seq<int>)
    requires
        f.len() > 0,
        n > 0,
    ensures
        fold_chunks_all(f, n, u).len() > 0,
    decreases u.len(),
{
    if u.len() > 0 {
        lemma_num_chunks(f.len() as int, n);
        let m = (num_chunks(f.len() as int, n) + 1) / 2;
        assert(m * n > 0) by (nonlinear_arith)
            requires
                m >= 1,
                n > 0,
        ;
        lemma_fold_chunks_nonempty(fold_chunks(f, n, u[0]), n, u.drop_first());
    }
}

/// What is left of the chunks when all chunk variables are set.
pub open spec fn last_chunk(f: Seq<int>, n: int, u: Seq<int>) -> Seq<int> {
    resized(fold_chunks_all(f, n, u), n)
}

/// The sum of the chunk that is left.
proof fn lemma_last_chunk(f: Seq<int>, w: Seq<int>, u: Seq<int>)
    requires
        w.len() > 0,
        f.len() > 0,
    ensures
        fold_all(chunk_values(f, w), u).len() > 0,
        fold_all(chunk_values(f, w), u)[0] == inner_product(w, last_chunk(f, w.len() as int, u)),
{
    let n = w.len() as int;
    let g = fold_chunks_all(f, n, u);
    lemma_fold_all_chunk_values(f, w, u);
    lemma_fold_chunks_nonempty(f, n, u);
    lemma_num_chunks(g.len() as int, n);
    assert(chunk_values(g, w)[0] == chunk_value(g, w, 0));
    let x = last_chunk(f, n, u);
    lemma_sum_eq(n, |j: int| w[j] * at(g, 0 * w.len() + j), |i: int| w[i] * x[i]);
}

/// The values of `eq_at` over the cube.
pub open spec fn eq_weights(p: Seq<int>) -> Seq<int> {
    Seq::new(pow2(p.len()), |i: int| eq_at(p, i))
}

/// `eq_at` of a joined point is the product.
proof fn lemma_eq_join(a: Seq<int>, b: Seq<int>, j: int, c: int)
    requires
        0 <= j < pow2(a.len()),
        0 <= c,
    ensures
        eq_at(a + b, c * pow2(a.len()) + j) == eq_at(a, j) * eq_at(b, c),
    decreases a.len(),
{
    lemma_pow2_step(0);
    if a.len() == 0 {
        assert(a + b =~= b);
        assert(j == 0);
        assert(eq_at(a, 0) == 1) by {
            assert(complement(a).len() == 0);
        }
        assert(c * 1 == c);
    } else {
        let a1 = a.drop_first();
        let n = pow2((a.len() - 1) as nat) as int;
        lemma_pow2_step((a.len() - 1) as nat);
        let i = c * pow2(a.len()) + j;
        assert(c * (2 * n) == 2 * (c * n)) by (nonlinear_arith);
        assert(i == 2 * (c * n) + j);
        assert(i % 2 == j % 2 && i / 2 == c * n + j / 2);
        lemma_eq_join(a1, b, j / 2, c);
        assert((a + b).drop_first() =~= a1 + b);
        assert(complement(a + b).drop_first() =~= complement(a1 + b));
        assert(complement(a).drop_first() =~= complement(a1));
        let x = if j % 2 == 1 { a[0] } else { 1 - a[0] };
        let y = eq_at(a1, j / 2);
        let z = eq_at(b, c);
        assert(x * (y * z) == (x * y) * z) by (nonlinear_arith);
    }
}

/// A value is that of the chunk sums at the chunk variables.
proof fn lemma_mle_chunks(f: Seq<int>, a: Seq<int>, b: Seq<int>)
    ensures
        mle(f, a + b) == mle(chunk_values(f, eq_weights(a)), b),
{
    let w = eq_weights(a);
    let n = pow2(a.len()) as int;
    lemma_pow2_step(a.len());
    let cv = chunk_values(f, w);
    let m = num_chunks(f.len() as int, n);
    lemma_num_chunks(f.len() as int, n);
    let t = |i: int| at(f, i) * eq_at(a + b, i);
    lemma_sum_eq(f.len() as int, |i: int| f[i] * eq_at(a + b, i), t);
    assert forall|i: int| f.len() <= i < m * n implies #[trigger] t(i) == 0 by {
        assert(0 * eq_at(a + b, i) == 0);
    }
    lemma_sum_extend(f.len() as int, m * n, t);
    lemma_sum_blocks(m, n, t);
    let x = |c: int| sum_to(n, |j: int| t(c * n + j));
    let y = |c: int| cv[c] * eq_at(b, c);
    assert forall|c: int| 0 <= c < m implies #[trigger] x(c) == y(c) by {
        let e = eq_at(b, c);
        let u = |j: int| w[j] * at(f, c * w.len() + j);
        let v = |j: int| t(c * n + j);
        assert forall|j: int| 0 <= j < n implies #[trigger] v(j) == (|j: int| e * u(j))(j) by {
            lemma_eq_join(a, b, j, c);
            let p = at(f, c * n + j);
            let q = eq_at(a, j);
            assert(p * (q * e) == e * (q * p)) by (nonlinear_arith);
        }
        lemma_sum_eq(n, v, |j: int| e * u(j));
        lemma_sum_scale(n, e, u);
        assert(e * cv[c] == cv[c] * e) by (nonlinear_arith);
    }
    lemma_sum_eq(m, x, y);
}

/// A sum splits into blocks of equal length.
pub proof fn lemma_sum_blocks(m: int, n: int, f: spec_fn(int) -> int)
    requires
        0 <= m,
        0 <= n,
    ensures
        sum_to(m * n, f) == sum_to(m, |c: int| sum_to(n, |j: int| f(c * n + j))),
    decreases m,
{
    if m == 0 {
        assert(0 * n == 0);
    } else {
        lemma_sum_blocks(m - 1, n, f);
        assert((m - 1) * n >= 0) by (nonlinear_arith)
            requires
                m >= 1,
                n >= 0,
        ;
        assert(m * n == (m - 1) * n + n) by (nonlinear_arith);
        lemma_sum_split((m - 1) * n, n, f);
        lemma_sum_eq(n, |i: int| f((m - 1) * n + i), |j: int| f((m - 1) * n + j));
    }
}

/// Zeros after a point that has a coordinate for each variable change nothing.
pub proof fn lemma_mle_longer(f: Seq<int>, p: Seq<int>, n: int)
    requires
        f.len() <= pow2(p.len()),
        n >= p.len(),
    ensures
        mle(f, resized(p, n)) == mle(f, p),
{
    let q = resized(p, n);
    let b = q.skip(p.len() as int);
    assert(q =~= p + b);
    let x = |i: int| f[i] * eq_at(q, i);
    let y = |i: int| f[i] * eq_at(p, i);
    assert forall|i: int| 0 <= i < f.len() implies #[trigger] x(i) == y(i) by {
        lemma_eq_join(p, b, i, 0);
        assert(0 * pow2(p.len()) == 0);
        lemma_eq_zeros(b);
        assert(eq_at(p, i) * 1 == eq_at(p, i));
    }
    lemma_sum_eq(f.len() as int, x, y);
}

proof fn lemma_eq_zeros(b: Seq<int>)
    requires
        forall|i: int| 0 <= i < b.len() ==> #[trigger] b[i] == 0,
    ensures
        eq_at(b, 0) == 1,
    decreases b.len(),
{
    if b.len() > 0 {
        lemma_eq_zeros(b.drop_first());
        assert(complement(b).drop_first() =~= complement(b.drop_first()));
        assert(complement(b)[0] == 1);
    } else {
        assert(complement(b).len() == 0);
    }
}

/// The value of the chunk that is left is that of the whole.
proof fn lemma_last_chunk_value(f: Seq<int>, a: Seq<int>, u: Seq<int>)
    requires
        f.len() > 0,
    ensures
        inner_product(eq_weights(a), last_chunk(f, pow2(a.len()) as int, u)) == mle(f, a + u),
{
    let w = eq_weights(a);
    lemma_pow2_step(a.len());
    lemma_mle_chunks(f, a, u);
    lemma_last_chunk(f, w, u);
    let cv = chunk_values(f, w);
    lemma_mle_fold_all(cv, u, u.len() as int);
    assert(u.take(u.len() as int) =~= u);
    assert(u.skip(u.len() as int) =~= Seq::<int>::empty());
    lemma_mle_constant(fold_all(cv, u));
}

/// Opening in the monomial form: the opening explains the sum with the parameters.
proof fn lemma_open_monomial(g: int, tau: Seq<int>, bases: Seq<int>, f: Seq<int>, p: Seq<int>)
    requires
        tau.len() == p.len(),
        bases == srs_of(g, tau),
        f.len() == pow2(tau.len()),
    ensures
        ({
            let (proof, value) = open_monomial(bases, f, p);
            &&& proof.len() == tau.len()
            &&& inner_product(bases, f) == sum_to(
                tau.len() as int,
                |i: int| proof[i] * (tau[i] - p[i]),
            ) + g * value
            &&& value == sum_to(f.len() as int, |j: int| f[j] * monomial(p, j))
        }),
    decreases tau.len(),
{
    lemma_pow2_step(0);
    let k = tau.len() as int;
    if k == 0 {
        reveal_with_fuel(sum_to, 2);
        assert(monomial(tau, 0) == 1 && monomial(p, 0) == 1) by {
            assert(ones(0).len() == 0);
        }
        assert(bases[0] == g * 1);
        assert(f[0] * 1 == f[0]);
    } else {
        let m = pow2((k - 1) as nat) as int;
        lemma_pow2_step((k - 1) as nat);
        let tau1 = tau.drop_first();
        let p1 = p.drop_first();
        let e = evens(bases);
        let f1 = fold_monomial(f, p[0]);
        assert(ones(tau.len()).drop_first() =~= ones(tau1.len()));
        assert(e =~= srs_of(g, tau1)) by {
            assert forall|i: int| 0 <= i < m implies e[i] == srs_of(g, tau1)[i] by {
                assert((2 * i) % 2 == 0 && (2 * i) / 2 == i);
                assert(monomial(tau, 2 * i) == 1 * monomial(tau1, i));
            }
        }
        lemma_open_monomial(g, tau1, e, f1, p1);
        let (rest, value) = open_monomial(e, f1, p1);
        let q = inner_product(e, odds(f));
        let proof = seq![q] + rest;
        assert(open_monomial(bases, f, p) == (proof, value));
        let t = |i: int| bases[i] * f[i];
        lemma_sum_pairs(m, t);
        let pairs = |i: int| t(2 * i) + t(2 * i + 1);
        let d = tau[0] - p[0];
        let x = |i: int| e[i] * f1[i];
        let y = |i: int| e[i] * odds(f)[i];
        let dy = |i: int| d * y(i);
        assert forall|i: int| 0 <= i < m implies #[trigger] pairs(i) == (|i: int| x(i) + dy(i))(
            i,
        ) by {
            assert((2 * i + 1) % 2 == 1 && (2 * i + 1) / 2 == i);
            let mo = monomial(tau1, i);
            assert(monomial(tau, 2 * i + 1) == tau[0] * mo);
            assert(g * (tau[0] * mo) == tau[0] * (g * mo)) by (nonlinear_arith);
            assert(bases[2 * i + 1] == tau[0] * e[i]);
            let a = e[i];
            let u = f[2 * i];
            let v = f[2 * i + 1];
            let t0 = tau[0];
            let p0 = p[0];
            assert(a * u + (t0 * a) * v == a * (u + v * p0) + (t0 - p0) * (a * v))
                by (nonlinear_arith);
        }
        lemma_sum_eq(m, pairs, |i: int| x(i) + dy(i));
        lemma_sum_add(m, x, dy);
        lemma_sum_scale(m, d, y);
        assert(e.len() == m && odds(f).len() == m && f1.len() == m);
        assert(inner_product(e, f1) == sum_to(m, x));
        assert(q == sum_to(m, y));
        assert(inner_product(bases, f) == sum_to(2 * m, t));
        let s = |i: int| proof[i] * (tau[i] - p[i]);
        lemma_sum_split(1, k - 1, s);
        reveal_with_fuel(sum_to, 2);
        assert(sum_to(1, s) == q * d);
        assert(q * d == d * q) by (nonlinear_arith);
        lemma_sum_eq(
            k - 1,
            |i: int| s(1 + i),
            |i: int| rest[i] * (tau1[i] - p1[i]),
        );
        // the value
        let fv = |j: int| f[j] * monomial(p, j);
        lemma_sum_pairs(m, fv);
        let fp = |i: int| fv(2 * i) + fv(2 * i + 1);
        let f1v = |j: int| f1[j] * monomial(p1, j);
        assert forall|i: int| 0 <= i < m implies #[trigger] fp(i) == f1v(i) by {
            assert((2 * i) % 2 == 0 && (2 * i) / 2 == i);
            assert((2 * i + 1) % 2 == 1 && (2 * i + 1) / 2 == i);
            let mo = monomial(p1, i);
            assert(monomial(p, 2 * i) == 1 * mo);
            assert(monomial(p, 2 * i + 1) == p[0] * mo);
            let u = f[2 * i];
            let v = f[2 * i + 1];
            let p0 = p[0];
            assert(u * (1 * mo) + v * (p0 * mo) == (u + v * p0) * mo) by (nonlinear_arith);
        }
        lemma_sum_eq(m, fp, f1v);
    }
}

/// The transformed monomial times the scale is `eq_at`.
proof fn lemma_monomial_eq(p: Seq<int>, j: int)
    requires
        forall|i: int| 0 <= i < p.len() ==> invertible(1 - #[trigger] p[i]),
    ensures
        cong(monomial(p.map_values(|x: int| transform(x)), j) * scale(p), eq_at(p, j)),
    decreases p.len(),
{
    let t = p.map_values(|x: int| transform(x));
    if p.len() == 0 {
        assert(ones(0).len() == 0 && complement(p).len() == 0);
        assert(scale(p) == 1);
        assert(0 * 1 == 0 && 1 * 1 == 1);
    } else {
        let p1 = p.drop_first();
        let t1 = p1.map_values(|x: int| transform(x));
        assert(t.drop_first() =~= t1);
        assert(ones(t.len()).drop_first() =~= ones(t1.len()));
        assert(complement(p).drop_first() =~= complement(p1));
        assert forall|i: int| 0 <= i < p1.len() implies invertible(1 - #[trigger] p1[i]) by {
            assert(p1[i] == p[i + 1]);
        }
        lemma_monomial_eq(p1, j / 2);
        lemma_scale_first(p);
        let c = 1 - p[0];
        lemma_inverse_of(c);
        let mo = monomial(t1, j / 2);
        let sc = scale(p1);
        let e = eq_at(p1, j / 2);
        if j % 2 == 1 {
            let inv = inverse_of(c);
            let x = p[0];
            assert(((x * inv) * mo) * (c * sc) == (c * inv) * (x * (mo * sc))) by (nonlinear_arith);
            lemma_cong_ops(x, x, mo * sc, e);
            lemma_cong_ops(c * inv, 1, x * (mo * sc), x * e);
            assert(1 * (x * e) == x * e);
        } else {
            assert((1 * mo) * (c * sc) == c * (mo * sc)) by (nonlinear_arith);
            lemma_cong_ops(c, c, mo * sc, e);
        }
    }
}

/// `scale` with the first coordinate split off.
proof fn lemma_scale_first(p: Seq<int>)
    requires
        p.len() > 0,
    ensures
        scale(p) == (1 - p[0]) * scale(p.drop_first()),
    decreases p.len(),
{
    let n = p.len() as int;
    let f = |i: int| 1 - p[i];
    let q = p.drop_first();
    lemma_product_first(n, f);
    lemma_product_eq(n - 1, |i: int| f(i + 1), |i: int| 1 - q[i]);
}

pub proof fn lemma_product_first(n: int, f: spec_fn(int) -> int)
    requires
        n >= 1,
    ensures
        product_to(n, f) == f(0) * product_to(n - 1, |i: int| f(i + 1)),
    decreases n,
{
    if n == 1 {
        reveal_with_fuel(product_to, 2);
    } else {
        lemma_product_first(n - 1, f);
        let a = f(0);
        let b = product_to(n - 2, |i: int| f(i + 1));
        let c = f(n - 1);
        assert((a * b) * c == a * (b * c)) by (nonlinear_arith);
    }
}

/// The scale of an openable point has an inverse.
proof fn lemma_scale_invertible(p: Seq<int>)
    requires
        forall|i: int| 0 <= i < p.len() ==> invertible(1 - #[trigger] p[i]),
    ensures
        invertible(scale(p)),
    decreases p.len(),
{
    if p.len() == 0 {
        lemma_invertible_one();
    } else {
        let q = p.drop_first();
        assert forall|i: int| 0 <= i < q.len() implies invertible(1 - #[trigger] q[i]) by {
            assert(q[i] == p[i + 1]);
        }
        lemma_scale_invertible(q);
        lemma_scale_first(p);
        assert(invertible(1 - p[0]));
        lemma_invertible_mul(1 - p[0], scale(q));
    }
}

/// An opening of a polynomial gives its value, and is accepted against the
/// commitment for every way to write that value.
pub proof fn law_open(g: int, h: int, tau: Seq<int>, f: Seq<int>, point: Seq<int>, value: int)
    requires
        f.len() > 0,
        f.len() <= pow2(point.len()),
        openable(tau.len(), point),
        cong(value, mle(f, point)),
    ensures
        cong(open_of(srs_of(g, tau), f, point).1, mle(f, point)),
        verify_of(
            ver_params_of(g, h, tau),
            point,
            commit_of(srs_of(g, tau), f),
            value,
            open_of(srs_of(g, tau), f, point).0,
        ),
{
    let k = tau.len() as int;
    let n = pow2(tau.len()) as int;
    let srs = srs_of(g, tau);
    let vp = ver_params_of(g, h, tau);
    lemma_pow2_step(tau.len());
    lemma_log_of(tau.len());
    let q = lengthened(point, k);
    let a = q.take(k);
    let u = q.skip(k);
    assert(q =~= a + u);
    if point.len() < k {
        lemma_mle_longer(f, point, k);
    }
    assert(mle(f, q) == mle(f, point));
    assert forall|i: int| 0 <= i < a.len() implies invertible(1 - #[trigger] a[i]) by {
        assert(invertible(1 - at(point, i)));
        assert(a[i] == at(point, i));
    }
    let t = a.map_values(|x: int| transform(x));
    let chunk = last_chunk(f, n, u);
    lemma_open_monomial(g, tau, srs, chunk, t);
    let (proof, mono) = open_monomial(srs, chunk, t);
    let sc = scale(a);
    assert(open_of(srs, f, point) == (proof, mono * sc));
    // the value
    let x = |j: int| chunk[j] * monomial(t, j);
    let y = |j: int| sc * x(j);
    let z = |i: int| eq_weights(a)[i] * chunk[i];
    assert forall|j: int| 0 <= j < n implies cong(#[trigger] y(j), z(j)) by {
        lemma_monomial_eq(a, j);
        let m = monomial(t, j);
        let c = chunk[j];
        assert(sc * (c * m) == (m * sc) * c) by (nonlinear_arith);
        lemma_cong_ops(m * sc, eq_at(a, j), c, c);
    }
    lemma_sum_cong(n, y, z);
    lemma_sum_scale(n, sc, x);
    assert(sc * mono == mono * sc) by (nonlinear_arith);
    lemma_last_chunk_value(f, a, u);
    assert(inner_product(eq_weights(a), chunk) == sum_to(n, z));
    assert(cong(mono * sc, mle(f, point)));
    // the equation
    lemma_scale_invertible(a);
    lemma_inverse_of(sc);
    let inv = inverse_of(sc);
    assert(cong(value * inv, mono)) by {
        assert(cong(value, mono * sc));
        lemma_cong_ops(value, mono * sc, inv, inv);
        assert((mono * sc) * inv == mono * (sc * inv)) by (nonlinear_arith);
        lemma_cong_ops(mono, mono, sc * inv, 1);
        assert(mono * 1 == mono);
    }
    lemma_commit_chunks(srs, f);
    lemma_last_chunk(f, srs, u);
    let comm = commit_of(srs, f);
    let total = inner_product(srs, chunk);
    assert(fold_all(comm, u)[0] == total);
    lemma_num_chunks(f.len() as int, n);
    assert(comm.len() > 0);
    let s = |i: int| proof[i] * (tau[i] - t[i]);
    let s2 = |i: int| proof[i] * (vp.params[i] - vp.h * transform(q[i]));
    let hs = |i: int| h * s(i);
    assert forall|i: int| 0 <= i < k implies #[trigger] s2(i) == hs(i) by {
        let w = proof[i];
        let ti = tau[i];
        let mi = t[i];
        assert(mi == transform(q[i]));
        assert(w * (h * ti - h * mi) == h * (w * (ti - mi))) by (nonlinear_arith);
    }
    lemma_sum_eq(k, s2, hs);
    lemma_sum_scale(k, h, s);
    let sum = sum_to(k, s);
    lemma_cong_ops(g * h, g * h, value * inv, mono);
    assert(g * (h * (value * inv)) == (g * h) * (value * inv)) by (nonlinear_arith);
    lemma_cong_ops(h * sum, h * sum, (g * h) * (value * inv), (g * h) * mono);
    assert(h * sum + (g * h) * mono == (sum + g * mono) * h) by (nonlinear_arith);
}

/// With invertible bases, an opening of a polynomial is accepted for the value of the
/// polynomial alone.
pub proof fn law_open_only(g: int, h: int, tau: Seq<int>, f: Seq<int>, point: Seq<int>, value: int)
    requires
        f.len() > 0,
        f.len() <= pow2(point.len()),
        openable(tau.len(), point),
        invertible(g),
        invertible(h),
    ensures
        verify_of(
            ver_params_of(g, h, tau),
            point,
            commit_of(srs_of(g, tau), f),
            value,
            open_of(srs_of(g, tau), f, point).0,
        ) <==> cong(value, mle(f, point)),
{
    let y = mle(f, point);
    let vp = ver_params_of(g, h, tau);
    let comm = commit_of(srs_of(g, tau), f);
    let proof = open_of(srs_of(g, tau), f, point).0;
    if cong(value, y) {
        law_open(g, h, tau, f, point, value);
    } else if verify_of(vp, point, comm, value, proof) {
        law_open(g, h, tau, f, point, y);
        let k = tau.len() as int;
        let q = lengthened(point, k);
        let a = q.take(k);
        assert forall|i: int| 0 <= i < a.len() implies invertible(1 - #[trigger] a[i]) by {
            assert(invertible(1 - at(point, i)));
            assert(a[i] == at(point, i));
        }
        lemma_scale_invertible(a);
        lemma_inverse_of(scale(a));
        let inv = inverse_of(scale(a));
        let sum = sum_to(k, |i: int| proof[i] * (vp.params[i] - vp.h * transform(q[i])));
        let u = g * (h * (value * inv));
        let v = g * (h * (y * inv));
        let w = fold_all(comm, q.skip(k))[0] * h;
        assert(vp.params.len() == k);
        assert(cong(sum + u, w));
        assert(cong(sum + v, w));
        lemma_cong_ops(sum + u, sum + v, sum, sum);
        assert(cong(u, v));
        let c = g * h * inv;
        assert(u == value * c) by (nonlinear_arith)
            requires
                u == g * (h * (value * inv)),
                c == g * h * inv,
        ;
        assert(v == y * c) by (nonlinear_arith)
            requires
                v == g * (h * (y * inv)),
                c == g * h * inv,
        ;
        assert(invertible(inv)) by {
            let sc = scale(a);
            assert(sc * inv == inv * sc) by (nonlinear_arith);
            lemma_inverse_from(inv, sc);
        }
        lemma_invertible_mul(g, h);
        lemma_invertible_mul(g * h, inv);
        lemma_cong_cancel(value, y, c);
    }
}

/// With invertible bases, no proof is accepted for two values of one commitment at one
/// point.
pub proof fn law_one_value(
    vp: VerParams,
    point: Seq<int>,
    comm: Seq<int>,
    proof_points: Seq<int>,
    x: int,
    y: int,
)
    requires
        invertible(vp.g),
        invertible(vp.h),
        verify_of(vp, point, comm, x, proof_points),
        verify_of(vp, point, comm, y, proof_points),
    ensures
        cong(x, y),
{
    let k = vp.params.len() as int;
    let g = vp.g;
    let h = vp.h;
    let q = lengthened(point, k);
    let a = q.take(k);
    assert forall|i: int| 0 <= i < a.len() implies invertible(1 - #[trigger] a[i]) by {
        assert(invertible(1 - at(point, i)));
        assert(a[i] == at(point, i));
    }
    lemma_scale_invertible(a);
    lemma_inverse_of(scale(a));
    let inv = inverse_of(scale(a));
    let sum = sum_to(k, |i: int| proof_points[i] * (vp.params[i] - vp.h * transform(q[i])));
    let u = g * (h * (x * inv));
    let v = g * (h * (y * inv));
    let w = fold_all(comm, q.skip(k))[0] * h;
    assert(cong(sum + u, w));
    assert(cong(sum + v, w));
    lemma_cong_ops(sum + u, sum + v, sum, sum);
    assert(cong(u, v));
    let c = g * h * inv;
    assert(u == x * c) by (nonlinear_arith)
        requires
            u == g * (h * (x * inv)),
            c == g * h * inv,
    ;
    assert(v == y * c) by (nonlinear_arith)
        requires
            v == g * (h * (y * inv)),
            c == g * h * inv,
    ;
    assert(invertible(inv)) by {
        let sc = scale(a);
        assert(sc * inv == inv * sc) by (nonlinear_arith);
        lemma_inverse_from(inv, sc);
    }
    lemma_invertible_mul(g, h);
    lemma_invertible_mul(g * h, inv);
    lemma_cong_cancel(x, y, c);
}

} // verus!
