//! Openings of the sparse matrices of a circuit are accepted.
use vstd::prelude::*;
use vstd::arithmetic::power::*;
use vstd::arithmetic::power2::*;
use crate::circuit::{CircuitView, Entry, matrix_mle};
use crate::claims::{claims_match, lemma_batch_accepted, lemma_claims_push};
use crate::field::cong;
use crate::gates::{lemma_gate_degrees, lemma_gate_values, product3, product4};
use crate::kzg::{commit_of, srs_of, ver_params_of};
use crate::logup::{
    group_counts, group_short, lemma_memory_accepted, lemma_vanishing, points_off, shape_of,
};
use crate::matrices::{
    joined_quads, lemma_eq_padded, lemma_quad_sum, lemma_weighted_quads, quad_sum, quad_term,
};
use crate::poly::{at, eq_at, min, mle};
use crate::replay::{
    all_off, extends, law_rounds, lemma_challenge, lemma_extends, lemma_read_fs, lemma_read_len,
    lemma_read_points, rest_of, row_at, row_value, whole_sum,
};
use crate::shapes::{
    lemma_mle_eq_table, lemma_mle_eq_take, lemma_mle_gamma, lemma_mle_row_table, lemma_mle_weights,
    lemma_slice_weights_len,
};
use crate::sparse::{
    Acc, GroupView, Quad, acc_push, all_suffix_quads, circuit_fits, circuit_max_pow, entry_weights,
    eq_table, gamma_table, group_commits, group_of, lemma_prefix_group, lemma_row_max_pow,
    lemma_suffix_group, lemma_table_size, max_pow, memory_draws, moved, not_empty, pointwise,
    pow_log, prefix_group, prove_memory, prove_prefix, prove_suffix, quads, reads, row_base_log,
    row_table, slice_weights, sparse_open_of, sparse_values, suffix_group, suffix_lens,
    suffix_quads,
};
use crate::sparse_prover::{
    points_fit, prefix_draws, prefix_ready, sparse_claims, sparse_ready, suffix_draws, suffix_ready,
};
use crate::sparse_verifier::{
    ShapeView, VerAcc, shape_at, sparse_verify_of, ver_push, verify_prefix, verify_suffix, weighted,
};
use crate::speaker::{Sent, drawn, send_commit, send_fs, send_rounds, send_u};
use crate::sumcheck::{gate_fits, lemma_log2_ceil, log2_ceil, same_len, values_at};
use crate::sums::{lemma_pow2_mono, lemma_pow2_step, lemma_sum_eq, sum_to};

verus! {

/// No power of a matrix is above its greatest.
pub proof fn lemma_max_pow(rows: Seq<Seq<Entry>>, n: int, i: int, k: int)
    requires
        0 <= i < n <= rows.len(),
        0 <= k < rows[i].len(),
    ensures
        rows[i][k].pow <= max_pow(rows, n),
    decreases n,
{
    if i < n - 1 {
        lemma_max_pow(rows, n - 1, i, k);
    } else {
        lemma_row_max_pow(rows[i], rows[i].len() as int, k);
    }
}

/// The table of powers has each power of a matrix whose greatest fits.
proof fn lemma_powers(rows: Seq<Seq<Entry>>, c: CircuitView, gamma: int)
    requires
        crate::sparse::pows_ok(rows),
        max_pow(rows, rows.len() as int) <= circuit_max_pow(c),
    ensures
        forall|i: int, k: int|
            0 <= i < rows.len() && 0 <= k < rows[i].len() ==> gamma_table(gamma, pow_log(c))[(
            #[trigger] rows[i][k]).pow] == pow(gamma, rows[i][k].pow as nat),
{
    lemma_log2_ceil(circuit_max_pow(c) + 1);
    assert forall|i: int, k: int|
        0 <= i < rows.len() && 0 <= k < rows[i].len() implies gamma_table(gamma, pow_log(c))[(
    #[trigger] rows[i][k]).pow] == pow(gamma, rows[i][k].pow as nat) by {
        lemma_max_pow(rows, rows.len() as int, i, k);
    }
}

/// A zero entry does not change a sum over entries.
proof fn lemma_not_empty(q: Seq<Quad>, tr: Seq<int>, tc: Seq<int>, tg: Seq<int>)
    ensures
        quad_sum(not_empty(q), tr, tc, tg) == quad_sum(q, tr, tc, tg),
{
    if q.len() == 0 {
        let e = not_empty(q);
        let f = |k: int| quad_term(e[k], tr, tc, tg);
        reveal_with_fuel(sum_to, 2);
        assert(sum_to(1, f) == f(0));
        let a = tr[0] * tc[0] * tg[0];
        assert(a * 0 == 0);
    }
}

/// The value of the second matrix on the prefix columns is the sum over its entries.
pub proof fn lemma_prefix_sum(c: CircuitView, chunk: int, rp: Seq<int>, cp: Seq<int>, gamma: int)
    requires
        circuit_fits(c, chunk),
        rp.len() == log2_ceil(c.a.len() as int),
    ensures
        quad_sum(
            not_empty(quads(c.b, 0, c.weight_len, c.b.len() as int)),
            eq_table(rp),
            eq_table(cp),
            gamma_table(gamma, pow_log(c)),
        ) == matrix_mle(
            c.b,
            c.b.len() as int,
            eq_table(rp),
            eq_table(cp),
            0,
            c.weight_len,
            gamma,
        ),
{
    let q = quads(c.b, 0, c.weight_len, c.b.len() as int);
    let tr = eq_table(rp);
    let tc = eq_table(cp);
    let tg = gamma_table(gamma, pow_log(c));
    lemma_powers(c.b, c, gamma);
    lemma_quad_sum(c.b, 0, 0, c.weight_len, c.b.len() as int, tr, tc, tg, tr, gamma);
    assert(moved(q, 0) =~= q);
    lemma_not_empty(q, tr, tc, tg);
}

/// The sum over the entries of a group.
pub proof fn lemma_group_sum(
    q: Seq<Quad>,
    lr: nat,
    lc: nat,
    lp: nat,
    tr: Seq<int>,
    tc: Seq<int>,
    tg: Seq<int>,
)
    ensures
        ({
            let g = group_of(q, lr, lc, lp);
            whole_sum(
                product4(),
                Seq::empty(),
                seq![reads(g.row, tr), reads(g.col, tc), reads(g.pow, tg), g.val],
                g.row.len() as int,
            ) == quad_sum(not_empty(q), tr, tc, tg)
        }),
{
    let g = group_of(q, lr, lc, lp);
    let e = not_empty(q);
    let n = e.len() as int;
    let tabs = seq![reads(g.row, tr), reads(g.col, tc), reads(g.pow, tg), g.val];
    let c = Seq::<int>::empty();
    let a = |j: int| row_value(product4(), c, tabs, j);
    let b = |k: int| quad_term(e[k], tr, tc, tg);
    assert forall|j: int| 0 <= j < n implies #[trigger] a(j) == b(j) by {
        let v = row_at(tabs, j);
        lemma_gate_values(v, c);
        assert(v[0] == at(tabs[0], j));
        assert(v[1] == at(tabs[1], j));
        assert(v[2] == at(tabs[2], j));
        assert(v[3] == at(tabs[3], j));
    }
    lemma_sum_eq(n, a, b);
}

/// The verifier can evaluate `eq_table`.
pub proof fn lemma_shape_eq(q: Seq<int>)
    ensures
        shape_of(ShapeView::Eq(q), eq_table(q), q.len()),
{
    assert forall|p: Seq<int>| p.len() == q.len() implies #[trigger] shape_at(
        ShapeView::Eq(q),
        p,
    ) == mle(eq_table(q), p) by {
        lemma_mle_eq_table(q, p);
    }
}

/// The verifier can evaluate the powers.
pub proof fn lemma_shape_powers(gamma: int, log: nat)
    ensures
        shape_of(ShapeView::Powers(gamma), gamma_table(gamma, log), log),
{
    assert forall|p: Seq<int>| p.len() == log implies #[trigger] shape_at(
        ShapeView::Powers(gamma),
        p,
    ) == mle(gamma_table(gamma, log), p) by {
        lemma_mle_gamma(gamma, p);
    }
}

/// The verifier can evaluate the table for the rows.
pub proof fn lemma_shape_rows(abc: Seq<int>, de: Seq<int>, log: nat)
    ensures
        shape_of(ShapeView::Rows(abc, de), row_table(abc, de, log), log + 1),
{
    lemma_pow2_step(log);
    assert forall|p: Seq<int>| p.len() == log + 1 implies #[trigger] shape_at(
        ShapeView::Rows(abc, de),
        p,
    ) == mle(row_table(abc, de, log), p) by {
        lemma_mle_row_table(abc, de, p);
    }
}

/// The value of the second matrix on the prefix columns is accepted.
#[verifier::rlimit(60)]
pub proof fn lemma_prefix_accepted(
    srs: Seq<int>,
    c: CircuitView,
    chunk: int,
    rp: Seq<int>,
    cp: Seq<int>,
    gamma: int,
    claim: int,
    full: Sent,
    s: Sent,
    a: Acc,
    v: VerAcc,
)
    requires
        circuit_fits(c, chunk),
        rp.len() == log2_ceil(c.a.len() as int),
        cp.len() == log2_ceil(c.weight_len),
        cong(
            claim,
            matrix_mle(
                c.b,
                c.b.len() as int,
                eq_table(rp),
                eq_table(cp),
                0,
                c.weight_len,
                gamma,
            ),
        ),
        prefix_ready(prefix_group(c), rp, cp, gamma, s.ch),
        claims_match(srs, a, v),
        ({
            let (end, b) = prove_prefix(srs, prefix_group(c), rp, cp, gamma, s, a);
            let n = a.points.len() as int;
            all_off(4, b.points[n]) && points_off(b, n + 4, 3) && extends(full, end)
        }),
    ensures
        extends(full, s),
        ({
            let (end, b) = prove_prefix(srs, prefix_group(c), rp, cp, gamma, s, a);
            let (st, w) = verify_prefix(
                group_commits(srs, prefix_group(c)),
                rp,
                cp,
                gamma,
                claim,
                rest_of(full, s),
                v,
            );
            &&& st == rest_of(full, end)
            &&& st.ch == s.ch.skip(prefix_draws(prefix_group(c)))
            &&& claims_match(srs, b, w)
        }),
{
    reveal(prove_prefix);
    reveal(verify_prefix);
    let g = prefix_group(c);
    lemma_prefix_group(c, chunk);
    let q = quads(c.b, 0, c.weight_len, c.b.len() as int);
    assert(g == group_of(q, rp.len(), cp.len(), pow_log(c))) by {
        reveal(prefix_group);
    }
    let len = g.row.len() as int;
    let nv = log2_ceil(len) as int;
    lemma_log2_ceil(len);
    let tr = eq_table(rp);
    let tc = eq_table(cp);
    let tg = gamma_table(gamma, g.log_pow);
    let e_row = reads(g.row, tr);
    let e_col = reads(g.col, tc);
    let e_pow = reads(g.pow, tg);
    let s1 = send_commit(s, srs, e_row);
    let s2 = send_commit(s1, srs, e_col);
    let s20 = send_commit(s2, srs, e_pow);
    let s3 = send_u(s20, len);
    let p1 = s3.ch.take(nv);
    let t1 = seq![e_row, e_col, e_pow, g.val];
    let none = Seq::<int>::empty();
    let s30 = send_rounds(s3, product4(), none, t1, len, 4, nv);
    let vals = values_at(t1, p1);
    let s4 = send_fs(s30, vals);
    let a1 = acc_push(acc_push(acc_push(a, e_row, p1), e_col, p1), e_pow, p1);
    let a2 = acc_push(a1, g.val, p1);
    let n = a.points.len() as int;
    let (end, b) = prove_memory(srs, g, tr, tc, tg, s4, a2);
    lemma_memory_points(srs, g, tr, tc, tg, s4, a2, n);
    lemma_memory_prefix(srs, g, tr, tc, tg, s4, a2, full);
    lemma_read_fs(full, s30, vals);
    lemma_prefix_sum(c, chunk, rp, cp, gamma);
    lemma_group_sum(q, rp.len(), cp.len(), pow_log(c), tr, tc, tg);
    lemma_gate_degrees();
    reveal_with_fuel(gate_fits, 5);
    lemma_vanishing(none);
    assert(same_len(t1, len)) by {
        assert forall|t: int| 0 <= t < t1.len() implies (#[trigger] t1[t]).len() == len by {}
    }
    law_rounds(product4(), none, t1, len, 4, nv, claim, full, s3);
    lemma_read_len(full, s20, len, 0);
    lemma_read_points(full, s2, commit_of(srs, e_pow));
    lemma_read_points(full, s1, commit_of(srs, e_col));
    lemma_read_points(full, s, commit_of(srs, e_row));
    lemma_gate_values(vals, none);
    let x0 = vals[0];
    let x1 = vals[1];
    let x2 = vals[2];
    let x3 = vals[3];
    assert(x0 == mle(t1[0], p1));
    assert(x1 == mle(t1[1], p1));
    assert(x2 == mle(t1[2], p1));
    assert(x3 == mle(t1[3], p1));
    lemma_claims_push(srs, a, v, e_row, p1, x0);
    let b1 = acc_push(a, e_row, p1);
    let w1 = ver_push(v, commit_of(srs, e_row), p1, x0);
    lemma_claims_push(srs, b1, w1, e_col, p1, x1);
    let b2 = acc_push(b1, e_col, p1);
    let w2 = ver_push(w1, commit_of(srs, e_col), p1, x1);
    lemma_claims_push(srs, b2, w2, e_pow, p1, x2);
    let w3 = ver_push(w2, commit_of(srs, e_pow), p1, x2);
    lemma_claims_push(srs, a1, w3, g.val, p1, x3);
    let w4 = ver_push(w3, commit_of(srs, g.val), p1, x3);
    lemma_shape_eq(rp);
    lemma_shape_eq(cp);
    lemma_shape_powers(gamma, g.log_pow);
    lemma_group_short(c, chunk);
    assert(s4.ch == s.ch.skip(nv));
    lemma_memory_accepted(
        srs,
        g,
        tr,
        tc,
        tg,
        ShapeView::Eq(rp),
        ShapeView::Eq(cp),
        ShapeView::Powers(gamma),
        full,
        s4,
        a2,
        w4,
    );
    assert(s4.ch.skip(memory_draws(g)) =~= s.ch.skip(prefix_draws(g)));
}

/// What was sent and collected before the reads of a group is the start of what comes
/// after.
pub proof fn lemma_memory_prefix(
    srs: Seq<int>,
    g: GroupView,
    tr: Seq<int>,
    tc: Seq<int>,
    tg: Seq<int>,
    s: Sent,
    a: Acc,
    full: Sent,
)
    requires
        extends(full, prove_memory(srs, g, tr, tc, tg, s, a).0),
    ensures
        extends(full, s),
{
    reveal(prove_memory);
    reveal(crate::sparse::prove_left);
    reveal(crate::sparse::prove_right);
    let end = prove_memory(srs, g, tr, tc, tg, s, a).0;
    assert(s.u =~= end.u.take(s.u.len() as int));
    assert(s.f =~= end.f.take(s.f.len() as int));
    assert(s.g =~= end.g.take(s.g.len() as int));
    lemma_extends(full, s, end);
}

/// The points collected before the reads of a group stay.
pub proof fn lemma_memory_points(
    srs: Seq<int>,
    g: GroupView,
    tr: Seq<int>,
    tc: Seq<int>,
    tg: Seq<int>,
    s: Sent,
    a: Acc,
    n: int,
)
    requires
        0 <= n < a.points.len(),
    ensures
        prove_memory(srs, g, tr, tc, tg, s, a).1.points[n] == a.points[n],
        prove_memory(srs, g, tr, tc, tg, s, a).1.points.len() == a.points.len() + 15,
{
    reveal(prove_memory);
}

/// The vectors and tables of the groups of a circuit are not too long to be sent, and
/// count their indices.
pub proof fn lemma_group_short(c: CircuitView, chunk: int)
    requires
        circuit_fits(c, chunk),
    ensures
        group_short(prefix_group(c)),
        group_short(suffix_group(c)),
        group_counts(prefix_group(c)),
        group_counts(suffix_group(c)),
{
    reveal(prefix_group);
    reveal(suffix_group);
    lemma_prefix_group(c, chunk);
    lemma_suffix_group(c, chunk);
    lemma_table_size(c.a.len() as int);
    lemma_table_size(c.weight_len);
    lemma_table_size(c.z_len - c.weight_len);
    lemma_table_size(circuit_max_pow(c) + 1);
}

/// The entries of the matrices on the suffix columns, matrix by matrix.
pub open spec fn suffix_slices(c: CircuitView) -> Seq<Seq<Quad>> {
    let flag = pow2(row_base_log(c)) as int;
    seq![
        moved(suffix_quads(c, c.a), 0),
        moved(suffix_quads(c, c.b), 0),
        moved(suffix_quads(c, c.c), 0),
        moved(suffix_quads(c, c.d), flag),
        moved(suffix_quads(c, c.e), flag),
    ]
}

pub proof fn lemma_suffix_slices(c: CircuitView)
    ensures
        joined_quads(suffix_slices(c), 5) == all_suffix_quads(c),
        forall|i: int|
            0 <= i < 5 ==> #[trigger] suffix_lens(c)[i] == suffix_slices(c)[i].len(),
{
    let e = suffix_slices(c);
    reveal_with_fuel(joined_quads, 6);
    assert(joined_quads(e, 5) =~= all_suffix_quads(c));
}

/// The value of one matrix on the suffix columns is the sum over its entries.
proof fn lemma_suffix_matrix(
    c: CircuitView,
    rows: Seq<Seq<Entry>>,
    by: int,
    tr: Seq<int>,
    rp: Seq<int>,
    cp: Seq<int>,
    gamma: int,
)
    requires
        crate::sparse::pows_ok(rows),
        max_pow(rows, rows.len() as int) <= circuit_max_pow(c),
        rows.len() <= pow2(rp.len()),
        forall|i: int| 0 <= i < pow2(rp.len()) ==> tr[i + by] == #[trigger] eq_table(rp)[i],
    ensures
        quad_sum(
            moved(suffix_quads(c, rows), by),
            tr,
            eq_table(cp),
            gamma_table(gamma, pow_log(c)),
        ) == matrix_mle(
            rows,
            rows.len() as int,
            eq_table(rp),
            eq_table(cp),
            c.weight_len,
            usize::MAX as int,
            gamma,
        ),
{
    lemma_powers(rows, c, gamma);
    lemma_quad_sum(
        rows,
        by,
        c.weight_len,
        usize::MAX as int,
        rows.len() as int,
        tr,
        eq_table(cp),
        gamma_table(gamma, pow_log(c)),
        eq_table(rp),
        gamma,
    );
}

/// The table for the rows holds `eq_at` for the rows of the constraint matrices, and
/// then for those of the lookup matrices.
proof fn lemma_row_table(abc: Seq<int>, de: Seq<int>, log: nat)
    requires
        abc.len() <= log,
        de.len() <= log,
    ensures
        forall|i: int|
            0 <= i < pow2(abc.len()) ==> row_table(abc, de, log)[i + 0] == #[trigger] eq_table(
                abc,
            )[i],
        forall|i: int|
            0 <= i < pow2(de.len()) ==> row_table(abc, de, log)[i + pow2(log)]
                == #[trigger] eq_table(de)[i],
{
    let t = row_table(abc, de, log);
    lemma_pow2_mono(abc.len(), log);
    lemma_pow2_mono(de.len(), log);
    assert forall|i: int| 0 <= i < pow2(abc.len()) implies t[i + 0] == #[trigger] eq_table(
        abc,
    )[i] by {
        lemma_eq_padded(abc, log as int, i);
    }
    assert forall|i: int| 0 <= i < pow2(de.len()) implies t[i + pow2(log)] == #[trigger] eq_table(
        de,
    )[i] by {
        lemma_eq_padded(de, log as int, i);
    }
}

/// The values of the matrices on the suffix columns, weighted, are the weighted sum over
/// the entries.
#[verifier::rlimit(30)]
pub proof fn lemma_suffix_sum(
    c: CircuitView,
    chunk: int,
    abc: Seq<int>,
    de: Seq<int>,
    suf: Seq<int>,
    pre: Seq<int>,
    gamma: int,
    r: int,
)
    requires
        circuit_fits(c, chunk),
        points_fit(c, abc, de, suf, pre),
    ensures
        ({
            let tr = row_table(abc, de, row_base_log(c));
            let tc = eq_table(suf);
            let tg = gamma_table(gamma, pow_log(c));
            let q = all_suffix_quads(c);
            sum_to(
                q.len() as int,
                |k: int| quad_term(q[k], tr, tc, tg) * slice_weights(suffix_lens(c), r, 5)[k],
            ) == weighted(sparse_values(c, abc, de, suf, pre, gamma).take(5), r)
        }),
        slice_weights(suffix_lens(c), r, 5).len() == all_suffix_quads(c).len(),
{
    reveal(sparse_values);
    let tr = row_table(abc, de, row_base_log(c));
    let tc = eq_table(suf);
    let tg = gamma_table(gamma, pow_log(c));
    let e = suffix_slices(c);
    let lens = suffix_lens(c);
    let x = sparse_values(c, abc, de, suf, pre, gamma).take(5);
    lemma_suffix_slices(c);
    lemma_weighted_quads(e, lens, 5, r, tr, tc, tg);
    let q = all_suffix_quads(c);
    let w = slice_weights(lens, r, 5);
    lemma_sum_eq(
        q.len() as int,
        |k: int| quad_term(joined_quads(e, 5)[k], tr, tc, tg) * slice_weights(lens, r, 5)[k],
        |k: int| quad_term(q[k], tr, tc, tg) * slice_weights(suffix_lens(c), r, 5)[k],
    );
    lemma_row_table(abc, de, row_base_log(c));
    lemma_log2_ceil(c.a.len() as int);
    lemma_log2_ceil(c.d.len() as int);
    let flag = pow2(row_base_log(c)) as int;
    lemma_suffix_matrix(c, c.a, 0, tr, abc, suf, gamma);
    lemma_suffix_matrix(c, c.b, 0, tr, abc, suf, gamma);
    lemma_suffix_matrix(c, c.c, 0, tr, abc, suf, gamma);
    lemma_suffix_matrix(c, c.d, flag, tr, de, suf, gamma);
    lemma_suffix_matrix(c, c.e, flag, tr, de, suf, gamma);
    let a = |i: int| pow(r, i as nat) * quad_sum(e[i], tr, tc, tg);
    let b = |i: int| pow(r, i as nat) * x[i];
    assert forall|i: int| 0 <= i < 5 implies #[trigger] a(i) == b(i) by {
        assert(i == 0 || i == 1 || i == 2 || i == 3 || i == 4);
    }
    lemma_sum_eq(5, a, b);
}

/// The weighted sum over the entries of a group.
pub proof fn lemma_weighted_group(
    q: Seq<Quad>,
    lens: Seq<int>,
    r: int,
    lr: nat,
    lc: nat,
    lp: nat,
    tr: Seq<int>,
    tc: Seq<int>,
    tg: Seq<int>,
)
    requires
        slice_weights(lens, r, lens.len() as int).len() == q.len(),
    ensures
        ({
            let g = group_of(q, lr, lc, lp);
            let len = g.row.len() as int;
            let w = slice_weights(lens, r, lens.len() as int);
            whole_sum(
                product4(),
                Seq::empty(),
                seq![
                    reads(g.row, tr),
                    reads(g.col, tc),
                    reads(g.pow, tg),
                    pointwise(g.val, entry_weights(lens, r, len)),
                ],
                len,
            ) == sum_to(q.len() as int, |k: int| quad_term(q[k], tr, tc, tg) * w[k])
        }),
{
    let g = group_of(q, lr, lc, lp);
    let e = not_empty(q);
    let n = e.len() as int;
    let w = slice_weights(lens, r, lens.len() as int);
    let ew = entry_weights(lens, r, n);
    let tabs = seq![reads(g.row, tr), reads(g.col, tc), reads(g.pow, tg), pointwise(g.val, ew)];
    let c = Seq::<int>::empty();
    let a = |j: int| row_value(product4(), c, tabs, j);
    let b = |k: int| quad_term(e[k], tr, tc, tg) * at(w, k);
    assert forall|j: int| 0 <= j < n implies #[trigger] a(j) == b(j) by {
        let v = row_at(tabs, j);
        lemma_gate_values(v, c);
        assert(v[0] == at(tabs[0], j));
        assert(v[1] == at(tabs[1], j));
        assert(v[2] == at(tabs[2], j));
        assert(v[3] == at(tabs[3], j));
        let t = tr[e[j].row] * tc[e[j].col] * tg[e[j].pow];
        let x = e[j].val;
        let y = at(w, j);
        assert(t * (x * y) == (t * x) * y) by (nonlinear_arith);
    }
    lemma_sum_eq(n, a, b);
    if q.len() == 0 {
        reveal_with_fuel(sum_to, 2);
        assert(b(0) == 0) by {
            assert(at(w, 0) == 0);
            assert(quad_term(e[0], tr, tc, tg) * 0 == 0);
        }
    } else {
        lemma_sum_eq(n, b, |k: int| quad_term(q[k], tr, tc, tg) * w[k]);
    }
}

/// The value of weighted coefficients is a sum of products.
pub proof fn lemma_weighted_value(val: Seq<int>, w: Seq<int>, p: Seq<int>)
    requires
        w.len() == val.len(),
        val.len() <= pow2(p.len()),
    ensures
        whole_sum(
            product3(),
            Seq::empty(),
            seq![eq_table(p).take(val.len() as int), w, val],
            val.len() as int,
        ) == mle(pointwise(val, w), p),
{
    let n = val.len() as int;
    let eq = eq_table(p).take(n);
    let tabs = seq![eq, w, val];
    let c = Seq::<int>::empty();
    let f = pointwise(val, w);
    let a = |j: int| row_value(product3(), c, tabs, j);
    let b = |i: int| f[i] * eq_at(p, i);
    assert forall|j: int| 0 <= j < n implies #[trigger] a(j) == b(j) by {
        let v = row_at(tabs, j);
        lemma_gate_values(v, c);
        assert(v[0] == at(tabs[0], j));
        assert(v[1] == at(tabs[1], j));
        assert(v[2] == at(tabs[2], j));
        let x = val[j];
        let y = w[j];
        let z = eq_at(p, j);
        assert(z * y * x == (x * y) * z) by (nonlinear_arith);
    }
    lemma_sum_eq(n, a, b);
}

/// The values of the matrices on the suffix columns are accepted.
#[verifier::rlimit(80)]
pub proof fn lemma_suffix_accepted(
    srs: Seq<int>,
    c: CircuitView,
    chunk: int,
    abc: Seq<int>,
    de: Seq<int>,
    suf: Seq<int>,
    pre: Seq<int>,
    gamma: int,
    full: Sent,
    s: Sent,
    a: Acc,
    v: VerAcc,
)
    requires
        circuit_fits(c, chunk),
        points_fit(c, abc, de, suf, pre),
        suffix_ready(suffix_group(c), abc, de, suf, gamma, s.ch),
        claims_match(srs, a, v),
        ({
            let (end, b) = prove_suffix(
                srs,
                suffix_group(c),
                suffix_lens(c),
                abc,
                de,
                suf,
                gamma,
                s,
                a,
            );
            let n = a.points.len() as int;
            all_off(4, b.points[n]) && points_off(b, n + 4, 3) && extends(full, end)
        }),
    ensures
        extends(full, s),
        ({
            let (end, b) = prove_suffix(
                srs,
                suffix_group(c),
                suffix_lens(c),
                abc,
                de,
                suf,
                gamma,
                s,
                a,
            );
            let (st, w) = verify_suffix(
                group_commits(srs, suffix_group(c)),
                suffix_lens(c),
                abc,
                de,
                suf,
                gamma,
                sparse_values(c, abc, de, suf, pre, gamma).take(5),
                rest_of(full, s),
                v,
            );
            &&& st == rest_of(full, end)
            &&& st.ch == s.ch.skip(suffix_draws(suffix_group(c)))
            &&& claims_match(srs, b, w)
        }),
{
    reveal(prove_suffix);
    reveal(verify_suffix);
    let g = suffix_group(c);
    let lens = suffix_lens(c);
    let claims = sparse_values(c, abc, de, suf, pre, gamma).take(5);
    assert(claims.len() == 5) by {
        reveal(sparse_values);
    }
    lemma_suffix_group(c, chunk);
    let q = all_suffix_quads(c);
    let base = row_base_log(c);
    assert(g == group_of(q, base + 1, suf.len(), pow_log(c))) by {
        reveal(suffix_group);
    }
    let len = g.row.len() as int;
    let nv = log2_ceil(len) as int;
    lemma_log2_ceil(len);
    let tr = row_table(abc, de, base);
    let tc = eq_table(suf);
    let tg = gamma_table(gamma, g.log_pow);
    let e_row = reads(g.row, tr);
    let e_col = reads(g.col, tc);
    let e_pow = reads(g.pow, tg);
    let s1 = send_commit(s, srs, e_row);
    let s2 = send_commit(s1, srs, e_col);
    let s3 = send_commit(s2, srs, e_pow);
    let r = s3.ch[0];
    let s4 = drawn(s3, 1);
    let w = entry_weights(lens, r, len);
    let x = pointwise(g.val, w);
    let s40 = send_commit(s4, srs, x);
    let s5 = send_u(s40, len);
    let p1 = s5.ch.take(nv);
    let t1 = seq![e_row, e_col, e_pow, x];
    let none = Seq::<int>::empty();
    let s50 = send_rounds(s5, product4(), none, t1, len, 4, nv);
    let v1 = values_at(t1, p1);
    let s6 = send_fs(s50, v1);
    let s7 = send_u(s6, len);
    let p2 = s7.ch.take(nv);
    let t2 = seq![eq_table(p1).take(len), w, g.val];
    let s70 = send_rounds(s7, product3(), none, t2, len, 3, nv);
    let v2 = values_at(t2, p2);
    let s8 = send_fs(s70, v2);
    let a1 = acc_push(acc_push(acc_push(a, e_row, p1), e_col, p1), e_pow, p1);
    let a2 = acc_push(acc_push(a1, x, p1), g.val, p2);
    let n = a.points.len() as int;
    let (end, b) = prove_memory(srs, g, tr, tc, tg, s8, a2);
    lemma_memory_points(srs, g, tr, tc, tg, s8, a2, n);
    lemma_memory_points(srs, g, tr, tc, tg, s8, a2, n + 4);
    assert(all_off(4, p1) && all_off(3, p2)) by {
        assert(a2.points[n] == p1);
        assert(a2.points[n + 4] == p2);
        assert(b.points[n + 4] == p2);
    }
    lemma_memory_prefix(srs, g, tr, tc, tg, s8, a2, full);
    lemma_gate_degrees();
    reveal_with_fuel(gate_fits, 5);
    lemma_vanishing(none);
    assert(same_len(t1, len)) by {
        assert forall|t: int| 0 <= t < t1.len() implies (#[trigger] t1[t]).len() == len by {}
    }
    assert(same_len(t2, len)) by {
        assert forall|t: int| 0 <= t < t2.len() implies (#[trigger] t2[t]).len() == len by {}
    }
    lemma_read_fs(full, s70, v2);
    lemma_weighted_value(g.val, w, p1);
    assert(v1[3] == mle(t1[3], p1));
    law_rounds(product3(), none, t2, len, 3, nv, v1[3], full, s7);
    lemma_read_len(full, s6, len, 0);
    lemma_read_fs(full, s50, v1);
    lemma_suffix_sum(c, chunk, abc, de, suf, pre, gamma, r);
    assert(lens.len() == 5);
    lemma_weighted_group(q, lens, r, base + 1, suf.len(), pow_log(c), tr, tc, tg);
    law_rounds(product4(), none, t1, len, 4, nv, weighted(claims, r), full, s5);
    lemma_read_len(full, s40, len, 0);
    lemma_read_points(full, s4, commit_of(srs, x));
    lemma_challenge(full, s3);
    lemma_read_points(full, s2, commit_of(srs, e_pow));
    lemma_read_points(full, s1, commit_of(srs, e_col));
    lemma_read_points(full, s, commit_of(srs, e_row));
    lemma_gate_values(v1, none);
    lemma_gate_values(v2, none);
    let x0 = v1[0];
    let x1 = v1[1];
    let x2 = v1[2];
    let x3 = v1[3];
    assert(x0 == mle(t1[0], p1));
    assert(x1 == mle(t1[1], p1));
    assert(x2 == mle(t1[2], p1));
    let y2 = v2[2];
    assert(v2[0] == mle(t2[0], p2));
    assert(v2[1] == mle(t2[1], p2));
    assert(y2 == mle(t2[2], p2));
    lemma_mle_eq_take(p1, p2, len);
    lemma_suffix_slices(c);
    assert forall|i: int| 0 <= i < lens.len() implies #[trigger] lens[i] >= 0 by {}
    lemma_slice_weights_len(lens, r, 5);
    lemma_mle_weights(lens, r, len, p2);
    assert(min(len, pow2(nv as nat) as int) == len);
    lemma_claims_push(srs, a, v, e_row, p1, x0);
    let b1 = acc_push(a, e_row, p1);
    let w1 = ver_push(v, commit_of(srs, e_row), p1, x0);
    lemma_claims_push(srs, b1, w1, e_col, p1, x1);
    let b2 = acc_push(b1, e_col, p1);
    let w2 = ver_push(w1, commit_of(srs, e_col), p1, x1);
    lemma_claims_push(srs, b2, w2, e_pow, p1, x2);
    let w3 = ver_push(w2, commit_of(srs, e_pow), p1, x2);
    lemma_claims_push(srs, a1, w3, x, p1, x3);
    let b4 = acc_push(a1, x, p1);
    let w4 = ver_push(w3, commit_of(srs, x), p1, x3);
    lemma_claims_push(srs, b4, w4, g.val, p2, y2);
    let w5 = ver_push(w4, commit_of(srs, g.val), p2, y2);
    lemma_shape_rows(abc, de, base);
    lemma_shape_eq(suf);
    lemma_shape_powers(gamma, g.log_pow);
    lemma_group_short(c, chunk);
    assert(s8.ch =~= s.ch.skip(1 + 2 * nv));
    lemma_memory_accepted(
        srs,
        g,
        tr,
        tc,
        tg,
        ShapeView::Rows(abc, de),
        ShapeView::Eq(suf),
        ShapeView::Powers(gamma),
        full,
        s8,
        a2,
        w5,
    );
    assert(s8.ch.skip(memory_draws(g)) =~= s.ch.skip(suffix_draws(g)));
}

/// The points collected for an opening of the matrices.
proof fn lemma_claims_points(
    srs: Seq<int>,
    c: CircuitView,
    abc: Seq<int>,
    de: Seq<int>,
    suf: Seq<int>,
    pre: Seq<int>,
    gamma: int,
    s: Sent,
)
    ensures
        ({
            let s1 = send_fs(s, sparse_values(c, abc, de, suf, pre, gamma));
            let none = Acc { polys: Seq::empty(), points: Seq::empty() };
            let (s2, a1) = prove_suffix(
                srs,
                suffix_group(c),
                suffix_lens(c),
                abc,
                de,
                suf,
                gamma,
                s1,
                none,
            );
            let b = sparse_claims(srs, c, abc, de, suf, pre, gamma, s).1;
            &&& a1.points.len() == 20
            &&& b.points.len() == 39
            &&& forall|i: int| 0 <= i < 20 ==> #[trigger] b.points[i] == a1.points[i]
        }),
{
    reveal(prove_suffix);
    reveal(prove_prefix);
    reveal(prove_memory);
}

/// None of the challenges of the sumchecks of an opening of the matrices is a node. The
/// points of the two sumchecks over products of four tables are the first of those of
/// each group.
pub open spec fn sparse_off(a: Acc) -> bool {
    &&& all_off(4, a.points[0])
    &&& all_off(4, a.points[20])
    &&& forall|i: int| 4 <= i < 20 || 24 <= i < 39 ==> all_off(3, #[trigger] a.points[i])
}

/// The first, third, fourth and fifth matrix read no parameter.
pub open spec fn prefix_free(v: Seq<int>) -> bool {
    cong(v[5], 0) && cong(v[7], 0) && cong(v[8], 0) && cong(v[9], 0)
}

/// An opening of the matrices of a circuit of which only the second reads parameters is
/// accepted, and gives the verifier the values of the matrices.
#[verifier::rlimit(40)]
pub proof fn law_sparse_open(
    g: int,
    h: int,
    tau: Seq<int>,
    c: CircuitView,
    abc: Seq<int>,
    de: Seq<int>,
    suf: Seq<int>,
    pre: Seq<int>,
    gamma: int,
    full: Sent,
    s: Sent,
)
    requires
        circuit_fits(c, pow2(tau.len()) as int),
        points_fit(c, abc, de, suf, pre),
        prefix_free(sparse_values(c, abc, de, suf, pre, gamma)),
        sparse_ready(srs_of(g, tau), c, abc, de, suf, pre, gamma, s),
        sparse_off(sparse_claims(srs_of(g, tau), c, abc, de, suf, pre, gamma, s).1),
        extends(
            full,
            sparse_open_of(
                srs_of(g, tau),
                c,
                suffix_group(c),
                suffix_lens(c),
                prefix_group(c),
                abc,
                de,
                suf,
                pre,
                gamma,
                s,
            ),
        ),
    ensures
        extends(full, s),
        sparse_verify_of(
            ver_params_of(g, h, tau),
            group_commits(srs_of(g, tau), suffix_group(c)),
            suffix_lens(c),
            group_commits(srs_of(g, tau), prefix_group(c)),
            abc,
            de,
            suf,
            pre,
            gamma,
            rest_of(full, s),
        ) == (
            rest_of(
                full,
                sparse_open_of(
                    srs_of(g, tau),
                    c,
                    suffix_group(c),
                    suffix_lens(c),
                    prefix_group(c),
                    abc,
                    de,
                    suf,
                    pre,
                    gamma,
                    s,
                ),
            ),
            sparse_values(c, abc, de, suf, pre, gamma),
        ),
{
    reveal(sparse_verify_of);
    let srs = srs_of(g, tau);
    let chunk = pow2(tau.len()) as int;
    let vals = sparse_values(c, abc, de, suf, pre, gamma);
    assert(vals.len() == 10) by {
        reveal(sparse_values);
    }
    let s1 = send_fs(s, vals);
    let none = Acc { polys: Seq::empty(), points: Seq::empty() };
    let gs = suffix_group(c);
    let gp = prefix_group(c);
    let (s2, a1) = prove_suffix(srs, gs, suffix_lens(c), abc, de, suf, gamma, s1, none);
    let (s3, a2) = prove_prefix(srs, gp, abc, pre, gamma, s2, a1);
    assert(sparse_claims(srs, c, abc, de, suf, pre, gamma, s) == (s3, a2));
    lemma_claims_points(srs, c, abc, de, suf, pre, gamma, s);
    assert(points_off(a1, 4, 3)) by {
        assert forall|i: int| 4 <= i < a1.points.len() implies all_off(
            3,
            #[trigger] a1.points[i],
        ) by {
            assert(a2.points[i] == a1.points[i]);
        }
    }
    assert(all_off(4, a1.points[0])) by {
        assert(a2.points[0] == a1.points[0]);
    }
    assert(points_off(a2, 24, 3)) by {
        assert forall|i: int| 24 <= i < a2.points.len() implies all_off(
            3,
            #[trigger] a2.points[i],
        ) by {}
    }
    let n1 = suffix_draws(gs);
    let n2 = prefix_draws(gp);
    let v0 = VerAcc { commits: Seq::empty(), points: Seq::empty(), values: Seq::empty() };
    assert(claims_match(srs, none, v0));
    lemma_batch_extends(srs, a2, full, s3);
    lemma_prefix_extends(srs, gp, abc, pre, gamma, s2, a1, full);
    lemma_suffix_accepted(srs, c, chunk, abc, de, suf, pre, gamma, full, s1, none, v0);
    let (st3, v1) = verify_suffix(
        group_commits(srs, gs),
        suffix_lens(c),
        abc,
        de,
        suf,
        gamma,
        vals.take(5),
        rest_of(full, s1),
        v0,
    );
    assert(vals[6] == matrix_mle(
        c.b,
        c.b.len() as int,
        eq_table(abc),
        eq_table(pre),
        0,
        c.weight_len,
        gamma,
    )) by {
        reveal(sparse_values);
    }
    lemma_prefix_accepted(srs, c, chunk, abc, pre, gamma, vals[6], full, s2, a1, v1);
    let (st4, v2) = verify_prefix(
        group_commits(srs, gp),
        abc,
        pre,
        gamma,
        vals[6],
        rest_of(full, s2),
        v1,
    );
    assert(s3.ch =~= s.ch.skip(n1 + n2));
    lemma_batch_accepted(g, h, tau, a2, v2, full, s3);
    lemma_read_fs(full, s, vals);
}

/// What was sent before a joint opening is the start of what was sent after it.
pub proof fn lemma_batch_extends(srs: Seq<int>, a: Acc, full: Sent, s: Sent)
    requires
        extends(full, crate::sparse::send_batch(srs, a, s)),
    ensures
        extends(full, s),
{
    let end = crate::sparse::send_batch(srs, a, s);
    assert(s.u =~= end.u.take(s.u.len() as int));
    assert(s.f =~= end.f.take(s.f.len() as int));
    assert(s.g =~= end.g.take(s.g.len() as int));
    lemma_extends(full, s, end);
}

/// What was sent before the prefix columns is the start of what was sent after them.
pub proof fn lemma_prefix_extends(
    srs: Seq<int>,
    g: GroupView,
    rp: Seq<int>,
    cp: Seq<int>,
    gamma: int,
    s: Sent,
    a: Acc,
    full: Sent,
)
    requires
        extends(full, prove_prefix(srs, g, rp, cp, gamma, s, a).0),
    ensures
        extends(full, s),
{
    reveal(prove_prefix);
    reveal(prove_memory);
    reveal(crate::sparse::prove_left);
    reveal(crate::sparse::prove_right);
    let end = prove_prefix(srs, g, rp, cp, gamma, s, a).0;
    assert(s.u =~= end.u.take(s.u.len() as int));
    assert(s.f =~= end.f.take(s.f.len() as int));
    assert(s.g =~= end.g.take(s.g.len() as int));
    lemma_extends(full, s, end);
}

/// What was sent before the suffix columns is the start of what was sent after them.
pub proof fn lemma_suffix_extends(
    srs: Seq<int>,
    g: GroupView,
    lens: Seq<int>,
    abc: Seq<int>,
    de: Seq<int>,
    cp: Seq<int>,
    gamma: int,
    s: Sent,
    a: Acc,
    full: Sent,
)
    requires
        extends(full, prove_suffix(srs, g, lens, abc, de, cp, gamma, s, a).0),
    ensures
        extends(full, s),
{
    reveal(prove_suffix);
    reveal(prove_memory);
    reveal(crate::sparse::prove_left);
    reveal(crate::sparse::prove_right);
    let end = prove_suffix(srs, g, lens, abc, de, cp, gamma, s, a).0;
    assert(s.u =~= end.u.take(s.u.len() as int));
    assert(s.f =~= end.f.take(s.f.len() as int));
    assert(s.g =~= end.g.take(s.g.len() as int));
    lemma_extends(full, s, end);
}

} // verus!
