//! Sparse matrices as sums over their entries.
use vstd::prelude::*;
use vstd::arithmetic::power::*;
use vstd::arithmetic::power2::*;
use crate::circuit::{
    Entry, column_value, entry_term, matrix_in_range, matrix_mle, mle_term, row_column,
    row_in_range, row_value,
};
use crate::kzg::resized;
use crate::poly::{at, eq_at, lemma_eq_suffix, mle};
use crate::prover::{columns, dot, rows_value};
use crate::sparse::{Quad, eq_table, moved, quads, row_quads, slice_weights};
use crate::sums::{
    lemma_product_eq, lemma_sum_add, lemma_sum_eq, lemma_sum_scale, lemma_sum_single,
    lemma_sum_split, lemma_sum_zero, product_to, sum_to,
};

verus! {

/// Zeros after a point do not change `eq_at` at the vertices of its own cube.
pub proof fn lemma_eq_padded(p: Seq<int>, n: int, i: int)
    requires
        n >= p.len(),
        0 <= i < pow2(p.len()),
    ensures
        eq_at(resized(p, n), i) == eq_at(p, i),
{
    let q = resized(p, n);
    let m = p.len() as int;
    lemma_eq_suffix(q, m, i);
    assert(q.take(m) =~= p);
    let f = |j: int| 1 - q[m + j];
    let g = |j: int| 1int;
    lemma_product_eq(n - m, f, g);
    lemma_product_one(n - m);
    assert(eq_at(p, i) * 1 == eq_at(p, i));
}

proof fn lemma_product_one(n: int)
    ensures
        product_to(n, |j: int| 1int) == 1,
    decreases n,
{
    if n > 0 {
        lemma_product_one(n - 1);
    }
}

/// One entry, summed over the columns.
proof fn lemma_entry_sum(e: Entry, v: int, lo: int, n: int, w: Seq<int>, gamma: int)
    requires
        0 <= n,
    ensures
        sum_to(n, |j: int| entry_term(e, lo + j, v, gamma) * w[j]) == mle_term(
            e,
            v,
            w,
            lo,
            lo + n,
            gamma,
        ),
{
    let f = |j: int| entry_term(e, lo + j, v, gamma) * w[j];
    assert forall|j: int| 0 <= j < n && j != e.col - lo implies #[trigger] f(j) == 0 by {
        assert(0 * w[j] == 0);
    }
    if lo <= e.col < lo + n {
        let j = e.col - lo;
        lemma_sum_single(n, j, f);
        let x = w[j];
        let y = e.val;
        let z = pow(gamma, e.pow as nat);
        assert(entry_term(e, lo + j, v, gamma) == v * y * z);
        assert((v * y * z) * x == v * x * y * z) by (nonlinear_arith);
    } else {
        lemma_sum_zero(n, f);
    }
}

/// One row, summed over the columns.
proof fn lemma_row_sum(row: Seq<Entry>, k: int, v: int, lo: int, n: int, w: Seq<int>, gamma: int)
    requires
        0 <= n,
        0 <= k,
    ensures
        sum_to(n, |j: int| row_column(row, k, lo + j, v, gamma) * w[j]) == sum_to(
            k,
            |k: int| mle_term(row[k], v, w, lo, lo + n, gamma),
        ),
    decreases k,
{
    let f = |j: int| row_column(row, k, lo + j, v, gamma) * w[j];
    if k == 0 {
        assert forall|j: int| 0 <= j < n implies #[trigger] f(j) == 0 by {
            assert(0 * w[j] == 0);
        }
        lemma_sum_zero(n, f);
    } else {
        lemma_row_sum(row, k - 1, v, lo, n, w, gamma);
        lemma_entry_sum(row[k - 1], v, lo, n, w, gamma);
        let a = |j: int| row_column(row, k - 1, lo + j, v, gamma) * w[j];
        let b = |j: int| entry_term(row[k - 1], lo + j, v, gamma) * w[j];
        let ab = |j: int| a(j) + b(j);
        lemma_sum_add(n, a, b);
        assert forall|j: int| 0 <= j < n implies #[trigger] f(j) == ab(j) by {
            let x = row_column(row, k - 1, lo + j, v, gamma);
            let y = entry_term(row[k - 1], lo + j, v, gamma);
            let z = w[j];
            assert((x + y) * z == x * z + y * z) by (nonlinear_arith);
        }
        lemma_sum_eq(n, f, ab);
    }
}

/// The columns of the product of a vector with a matrix, weighted, add up to the value of
/// the matrix.
pub proof fn lemma_column_sum(
    rows: Seq<Seq<Entry>>,
    m: int,
    v: Seq<int>,
    lo: int,
    n: int,
    w: Seq<int>,
    gamma: int,
)
    requires
        0 <= n,
        0 <= m,
    ensures
        sum_to(n, |j: int| column_value(rows, m, v, lo + j, gamma) * w[j]) == matrix_mle(
            rows,
            m,
            v,
            w,
            lo,
            lo + n,
            gamma,
        ),
    decreases m,
{
    let f = |j: int| column_value(rows, m, v, lo + j, gamma) * w[j];
    if m == 0 {
        assert forall|j: int| 0 <= j < n implies #[trigger] f(j) == 0 by {
            assert(0 * w[j] == 0);
        }
        lemma_sum_zero(n, f);
    } else {
        lemma_column_sum(rows, m - 1, v, lo, n, w, gamma);
        let row = rows[m - 1];
        lemma_row_sum(row, row.len() as int, v[m - 1], lo, n, w, gamma);
        let a = |j: int| column_value(rows, m - 1, v, lo + j, gamma) * w[j];
        let b = |j: int| row_column(row, row.len() as int, lo + j, v[m - 1], gamma) * w[j];
        let ab = |j: int| a(j) + b(j);
        lemma_sum_add(n, a, b);
        assert forall|j: int| 0 <= j < n implies #[trigger] f(j) == ab(j) by {
            let x = column_value(rows, m - 1, v, lo + j, gamma);
            let y = row_column(row, row.len() as int, lo + j, v[m - 1], gamma);
            let z = w[j];
            assert((x + y) * z == x * z + y * z) by (nonlinear_arith);
        }
        lemma_sum_eq(n, f, ab);
    }
}

/// The matrix does not change when its columns are bounded where there are no more, nor
/// when weights change past them.
pub proof fn lemma_matrix_bounds(
    rows: Seq<Seq<Entry>>,
    m: int,
    v: Seq<int>,
    w: Seq<int>,
    x: Seq<int>,
    lo: int,
    hi: int,
    top: int,
    gamma: int,
)
    requires
        0 <= m <= rows.len(),
        lo <= hi <= top,
        hi == top || matrix_in_range(rows, hi),
        forall|j: int| 0 <= j < hi - lo ==> w[j] == x[j],
    ensures
        matrix_mle(rows, m, v, w, lo, hi, gamma) == matrix_mle(rows, m, v, x, lo, top, gamma),
    decreases m,
{
    if m > 0 {
        lemma_matrix_bounds(rows, m - 1, v, w, x, lo, hi, top, gamma);
        let row = rows[m - 1];
        let a = |k: int| mle_term(row[k], v[m - 1], w, lo, hi, gamma);
        let b = |k: int| mle_term(row[k], v[m - 1], x, lo, top, gamma);
        assert forall|k: int| 0 <= k < row.len() implies #[trigger] a(k) == b(k) by {
            if hi != top {
                assert(row_in_range(rows[m - 1], hi));
                assert(row[k].col < hi);
            }
        }
        lemma_sum_eq(row.len() as int, a, b);
    }
}

/// The value of some columns of the product of a vector with a matrix.
pub proof fn lemma_mle_columns(
    rows: Seq<Seq<Entry>>,
    v: Seq<int>,
    lo: int,
    n: int,
    top: int,
    q: Seq<int>,
    gamma: int,
)
    requires
        0 <= n <= pow2(q.len()),
        lo + n <= top,
        lo + n == top || matrix_in_range(rows, lo + n),
    ensures
        mle(columns(rows, v, lo, n, gamma), q) == matrix_mle(
            rows,
            rows.len() as int,
            v,
            eq_table(q),
            lo,
            top,
            gamma,
        ),
{
    let m = rows.len() as int;
    let f = columns(rows, v, lo, n, gamma);
    let w = eq_table(q);
    lemma_column_sum(rows, m, v, lo, n, w, gamma);
    lemma_sum_eq(
        n,
        |i: int| f[i] * eq_at(q, i),
        |j: int| column_value(rows, m, v, lo + j, gamma) * w[j],
    );
    lemma_matrix_bounds(rows, m, v, w, w, lo, lo + n, top, gamma);
}

/// A row times a vector, from its two parts.
proof fn lemma_row_parts(row: Seq<Entry>, k: int, v: int, z: Seq<int>, wl: int, gamma: int)
    requires
        0 <= k <= row.len(),
        0 <= wl <= z.len(),
        row_in_range(row, z.len() as int),
    ensures
        sum_to(k, |k: int| mle_term(row[k], v, z.take(wl), 0, wl, gamma)) + sum_to(
            k,
            |k: int| mle_term(row[k], v, z.skip(wl), wl, z.len() as int, gamma),
        ) == v * sum_to(k, |k: int| z[row[k].col] * row[k].val * pow(gamma, row[k].pow as nat)),
    decreases k,
{
    if k > 0 {
        lemma_row_parts(row, k - 1, v, z, wl, gamma);
        let e = row[k - 1];
        assert(0 <= e.col < z.len());
        let x = z[e.col];
        let y = e.val;
        let p = pow(gamma, e.pow as nat);
        let s = sum_to(k - 1, |k: int| z[row[k].col] * row[k].val * pow(gamma, row[k].pow as nat));
        assert(v * (s + x * y * p) == v * s + v * x * y * p) by (nonlinear_arith);
        if e.col < wl {
            assert(z.take(wl)[e.col - 0] == x);
        } else {
            assert(z.skip(wl)[e.col - wl] == x);
        }
    } else {
        assert(v * 0 == 0);
    }
}

proof fn lemma_rows_parts(
    rows: Seq<Seq<Entry>>,
    m: int,
    v: Seq<int>,
    z: Seq<int>,
    wl: int,
    gamma: int,
)
    requires
        0 <= m <= rows.len(),
        0 <= wl <= z.len(),
        matrix_in_range(rows, z.len() as int),
    ensures
        matrix_mle(rows, m, v, z.take(wl), 0, wl, gamma) + matrix_mle(
            rows,
            m,
            v,
            z.skip(wl),
            wl,
            z.len() as int,
            gamma,
        ) == sum_to(m, |i: int| v[i] * row_value(rows[i], z, gamma)),
    decreases m,
{
    if m > 0 {
        lemma_rows_parts(rows, m - 1, v, z, wl, gamma);
        let row = rows[m - 1];
        assert(row_in_range(rows[m - 1], z.len() as int));
        lemma_row_parts(row, row.len() as int, v[m - 1], z, wl, gamma);
    }
}

/// The value of a matrix times a vector is the sum of the products of its columns with
/// the two parts of the vector.
pub proof fn lemma_mle_rows(
    rows: Seq<Seq<Entry>>,
    z: Seq<int>,
    wl: int,
    p: Seq<int>,
    gamma: int,
)
    requires
        rows.len() <= pow2(p.len()),
        0 <= wl <= z.len(),
        matrix_in_range(rows, z.len() as int),
    ensures
        mle(rows_value(rows, z, gamma), p) == dot(
            columns(rows, eq_table(p), 0, wl, gamma),
            z.take(wl),
        ) + dot(columns(rows, eq_table(p), wl, z.len() - wl, gamma), z.skip(wl)),
{
    let m = rows.len() as int;
    let v = eq_table(p);
    let n = z.len() - wl;
    let a = columns(rows, v, 0, wl, gamma);
    let b = columns(rows, v, wl, n, gamma);
    let za = z.take(wl);
    let zb = z.skip(wl);
    lemma_column_sum(rows, m, v, 0, wl, za, gamma);
    lemma_column_sum(rows, m, v, wl, n, zb, gamma);
    lemma_sum_eq(
        wl,
        |i: int| a[i] * za[i],
        |j: int| column_value(rows, m, v, 0 + j, gamma) * za[j],
    );
    lemma_sum_eq(
        n,
        |i: int| b[i] * zb[i],
        |j: int| column_value(rows, m, v, wl + j, gamma) * zb[j],
    );
    lemma_rows_parts(rows, m, v, z, wl, gamma);
    let r = rows_value(rows, z, gamma);
    let x = |i: int| r[i] * eq_at(p, i);
    let y = |i: int| v[i] * row_value(rows[i], z, gamma);
    assert forall|i: int| 0 <= i < m implies #[trigger] x(i) == y(i) by {
        let s = r[i];
        let e = eq_at(p, i);
        assert(s * e == e * s) by (nonlinear_arith);
    }
    lemma_sum_eq(m, x, y);
}

/// What an entry reads from three tables, times its coefficient.
pub open spec fn quad_term(q: Quad, tr: Seq<int>, tc: Seq<int>, tg: Seq<int>) -> int {
    tr[q.row] * tc[q.col] * tg[q.pow] * q.val
}

/// The sum over entries of what they read, times their coefficients.
pub open spec fn quad_sum(e: Seq<Quad>, tr: Seq<int>, tc: Seq<int>, tg: Seq<int>) -> int {
    sum_to(e.len() as int, |k: int| quad_term(e[k], tr, tc, tg))
}

pub proof fn lemma_quad_sum_concat(
    a: Seq<Quad>,
    b: Seq<Quad>,
    tr: Seq<int>,
    tc: Seq<int>,
    tg: Seq<int>,
)
    ensures
        quad_sum(a + b, tr, tc, tg) == quad_sum(a, tr, tc, tg) + quad_sum(b, tr, tc, tg),
{
    let c = a + b;
    let n = a.len() as int;
    let m = b.len() as int;
    let f = |k: int| quad_term(c[k], tr, tc, tg);
    lemma_sum_split(n, m, f);
    lemma_sum_eq(n, f, |k: int| quad_term(a[k], tr, tc, tg));
    lemma_sum_eq(m, |i: int| f(n + i), |k: int| quad_term(b[k], tr, tc, tg));
}

proof fn lemma_row_quad_sum(
    row: Seq<Entry>,
    i: int,
    by: int,
    lo: int,
    hi: int,
    n: int,
    tr: Seq<int>,
    tc: Seq<int>,
    tg: Seq<int>,
    gamma: int,
)
    requires
        0 <= n <= row.len(),
        forall|k: int|
            0 <= k < row.len() ==> tg[(#[trigger] row[k]).pow] == pow(gamma, row[k].pow as nat),
    ensures
        quad_sum(moved(row_quads(row, i, lo, hi, n), by), tr, tc, tg) == sum_to(
            n,
            |k: int| mle_term(row[k], tr[i + by], tc, lo, hi, gamma),
        ),
    decreases n,
{
    if n > 0 {
        lemma_row_quad_sum(row, i, by, lo, hi, n - 1, tr, tc, tg, gamma);
        let before = row_quads(row, i, lo, hi, n - 1);
        let e = row[n - 1];
        if lo <= e.col < hi {
            let q = Quad { row: i, col: e.col - lo, val: e.val, pow: e.pow };
            let last = seq![Quad { row: i + by, ..q }];
            assert(moved(before.push(q), by) =~= moved(before, by) + last);
            lemma_quad_sum_concat(moved(before, by), last, tr, tc, tg);
            let f = |k: int| quad_term(last[k], tr, tc, tg);
            reveal_with_fuel(sum_to, 2);
            assert(quad_sum(last, tr, tc, tg) == f(0));
            let a = tr[i + by];
            let b = tc[e.col - lo];
            let c = pow(gamma, e.pow as nat);
            let d = e.val;
            assert(tg[e.pow] == c);
            assert(a * b * c * d == a * b * d * c) by (nonlinear_arith);
        }
    } else {
        assert(moved(row_quads(row, i, lo, hi, n), by) =~= Seq::<Quad>::empty());
    }
}

/// The entries of a matrix, summed, give the value of the matrix.
pub proof fn lemma_quad_sum(
    rows: Seq<Seq<Entry>>,
    by: int,
    lo: int,
    hi: int,
    n: int,
    tr: Seq<int>,
    tc: Seq<int>,
    tg: Seq<int>,
    row_eq: Seq<int>,
    gamma: int,
)
    requires
        0 <= n <= rows.len(),
        forall|i: int| 0 <= i < n ==> tr[i + by] == #[trigger] row_eq[i],
        forall|i: int, k: int|
            0 <= i < rows.len() && 0 <= k < rows[i].len() ==> tg[(#[trigger] rows[i][k]).pow]
                == pow(gamma, rows[i][k].pow as nat),
    ensures
        quad_sum(moved(quads(rows, lo, hi, n), by), tr, tc, tg) == matrix_mle(
            rows,
            n,
            row_eq,
            tc,
            lo,
            hi,
            gamma,
        ),
    decreases n,
{
    if n > 0 {
        lemma_quad_sum(rows, by, lo, hi, n - 1, tr, tc, tg, row_eq, gamma);
        let row = rows[n - 1];
        let last = row_quads(row, n - 1, lo, hi, row.len() as int);
        let before = quads(rows, lo, hi, n - 1);
        assert forall|k: int| 0 <= k < row.len() implies tg[(#[trigger] row[k]).pow] == pow(
            gamma,
            row[k].pow as nat,
        ) by {
            assert(rows[n - 1][k] == row[k]);
        }
        lemma_row_quad_sum(row, n - 1, by, lo, hi, row.len() as int, tr, tc, tg, gamma);
        assert(moved(before + last, by) =~= moved(before, by) + moved(last, by));
        lemma_quad_sum_concat(moved(before, by), moved(last, by), tr, tc, tg);
        assert(tr[n - 1 + by] == row_eq[n - 1]);
    } else {
        assert(moved(quads(rows, lo, hi, n), by) =~= Seq::<Quad>::empty());
    }
}

/// Lists of entries, the first `n` of them one after the other.
pub open spec fn joined_quads(e: Seq<Seq<Quad>>, n: int) -> Seq<Quad>
    decreases n,
{
    if n <= 0 {
        Seq::empty()
    } else {
        joined_quads(e, n - 1) + e[n - 1]
    }
}

/// Entries weighted by their slices add up to the weighted sums of the slices.
pub proof fn lemma_weighted_quads(
    e: Seq<Seq<Quad>>,
    lens: Seq<int>,
    n: int,
    r: int,
    tr: Seq<int>,
    tc: Seq<int>,
    tg: Seq<int>,
)
    requires
        0 <= n <= e.len(),
        lens.len() == e.len(),
        forall|i: int| 0 <= i < e.len() ==> #[trigger] lens[i] == e[i].len(),
    ensures
        joined_quads(e, n).len() == slice_weights(lens, r, n).len(),
        sum_to(
            joined_quads(e, n).len() as int,
            |k: int| quad_term(joined_quads(e, n)[k], tr, tc, tg) * slice_weights(lens, r, n)[k],
        ) == sum_to(n, |i: int| pow(r, i as nat) * quad_sum(e[i], tr, tc, tg)),
    decreases n,
{
    if n > 0 {
        lemma_weighted_quads(e, lens, n - 1, r, tr, tc, tg);
        let a = joined_quads(e, n - 1);
        let b = e[n - 1];
        let c = joined_quads(e, n);
        let x = slice_weights(lens, r, n - 1);
        let y = slice_weights(lens, r, n);
        let p = pow(r, (n - 1) as nat);
        assert(lens[n - 1] == b.len());
        let m = a.len() as int;
        let l = b.len() as int;
        let f = |k: int| quad_term(c[k], tr, tc, tg) * y[k];
        lemma_sum_split(m, l, f);
        lemma_sum_eq(m, f, |k: int| quad_term(a[k], tr, tc, tg) * x[k]);
        let g = |k: int| quad_term(b[k], tr, tc, tg);
        let h = |k: int| p * g(k);
        let f1 = |i: int| f(m + i);
        assert forall|i: int| 0 <= i < l implies #[trigger] f1(i) == h(i) by {
            assert(c[m + i] == b[i]);
            assert(y[m + i] == p);
            let t = quad_term(b[i], tr, tc, tg);
            assert(t * p == p * t) by (nonlinear_arith);
        }
        lemma_sum_eq(l, f1, h);
        lemma_sum_scale(l, p, g);
    }
}

} // verus!
