//! Proofs that a vector satisfies a circuit are accepted.
use vstd::prelude::*;
use vstd::arithmetic::power2::*;
use crate::batch_openings::lemma_messages_len;
use crate::channel::{challenge, challenges, longest};
use crate::circuit::{CircuitView, row_value, satisfied, table_has};
use crate::claims::{claims_match, lemma_batch_accepted, lemma_claims_push};
use crate::field::{cong, invertible, lemma_cong_ops, lemma_inverse_cong};
use crate::gates::{constraint, lemma_gate_degrees, lemma_gate_values, logup_left, product2};
use crate::interpolation::lemma_sum_cong;
use crate::kzg::{commit_of, srs_of, ver_params_of};
use crate::logup::{inverse_to, lemma_inverse_to, lemma_right_accepted, lemma_vanishing, read_sum};
use crate::matrices::{lemma_mle_columns, lemma_mle_rows};
use crate::poly::{at, eq_at, mle};
use crate::preprocess::{key_of, table_inputs, table_ones, table_outputs, table_tags};
use crate::prover::{
    columns, constraint_draws, dot, five_columns, fresh, joined, linear_draws, lookup_draws,
    lookup_polys, lookup_prints, lookups_ready, occurrences, provable, prove_constraints,
    prove_linear, prove_lookups, prove_of, prove_ready, prove_stages, public_acc, public_values,
    rows_value, table_prints, witness_acc,
};
use crate::replay::{
    all_off, extends, law_rounds, lemma_challenge, lemma_challenges, lemma_extends,
    lemma_extends_self, lemma_read_f, lemma_read_fs, lemma_read_len, lemma_read_points,
    lemma_read_u, rest_of, row_at, whole_sum,
};
use crate::shapes::{lemma_mle_affine, lemma_mle_eq_take, lemma_mle_ones, lemma_mle_shifted};
use crate::sparse::{
    Acc, acc_push, affine, all_invertible, circuit_fits, eq_table, one_if, prefix_group,
    prove_right, shifted, shifted_inverses, sparse_open_of, sparse_values, suffix_group,
    suffix_lens, total,
};
use crate::sparse_laws::{law_sparse_open, lemma_batch_extends, prefix_free, sparse_off};
use crate::sparse_prover::{points_fit, sparse_claims};
use crate::sparse_verifier::{VerAcc, ver_push};
use crate::speaker::{Sent, drawn, send_commit, send_fs, send_points, send_rounds, send_u};
use crate::sumcheck::{gate_fits, lemma_log2_ceil, log2_ceil, same_len, values_at};
use crate::sums::{
    lemma_sum_add, lemma_sum_eq, lemma_sum_scale, lemma_sum_single, lemma_sum_swap, lemma_sum_zero,
    sum_to,
};
use crate::verify::{
    ConstraintClaims, LinearClaims, LookupClaims, joined_values, products_add_up, public_claims,
    public_explains, unread, verify_constraints, verify_linear, verify_lookups, verify_stages,
    witness_claims,
};

verus! {

/// What was sent before the constraints is the start of what was sent after them.
proof fn lemma_constraints_extends(
    srs: Seq<int>,
    c: CircuitView,
    z: Seq<int>,
    gamma: int,
    full: Sent,
    s: Sent,
)
    requires
        extends(full, prove_constraints(srs, c, z, gamma, s).0),
    ensures
        extends(full, s),
{
    reveal(prove_constraints);
    let end = prove_constraints(srs, c, z, gamma, s).0;
    assert(s.u =~= end.u.take(s.u.len() as int));
    assert(s.f =~= end.f.take(s.f.len() as int));
    assert(s.g =~= end.g.take(s.g.len() as int));
    lemma_extends(full, s, end);
}

/// The constraints of a vector that satisfies a circuit add up to zero.
proof fn lemma_constraint_sum(c: CircuitView, z: Seq<int>, gamma: int, eq: Seq<int>)
    requires
        satisfied(c, z, gamma),
        eq.len() == c.a.len(),
    ensures
        cong(
            whole_sum(
                constraint(),
                Seq::empty(),
                seq![
                    rows_value(c.a, z, gamma),
                    rows_value(c.b, z, gamma),
                    rows_value(c.c, z, gamma),
                    eq,
                ],
                c.a.len() as int,
            ),
            0,
        ),
{
    let n = c.a.len() as int;
    let tabs = seq![
        rows_value(c.a, z, gamma),
        rows_value(c.b, z, gamma),
        rows_value(c.c, z, gamma),
        eq,
    ];
    let none = Seq::<int>::empty();
    let f = |j: int| crate::replay::row_value(constraint(), none, tabs, j);
    let g = |j: int| 0int;
    assert forall|j: int| 0 <= j < n implies cong(#[trigger] f(j), g(j)) by {
        let v = row_at(tabs, j);
        lemma_gate_values(v, none);
        assert(v[0] == at(tabs[0], j));
        assert(v[1] == at(tabs[1], j));
        assert(v[2] == at(tabs[2], j));
        assert(v[3] == at(tabs[3], j));
        let x = row_value(c.a[j], z, gamma) * row_value(c.b[j], z, gamma);
        let y = row_value(c.c[j], z, gamma);
        assert(cong(x, y));
        lemma_cong_ops(x, y, y, y);
        lemma_cong_ops(x - y, 0, eq[j], eq[j]);
        assert(0 * eq[j] == 0);
    }
    lemma_sum_cong(n, f, g);
    lemma_sum_zero(n, g);
}

/// The constraints of a vector that satisfies a circuit are accepted.
proof fn lemma_constraints_accepted(
    srs: Seq<int>,
    c: CircuitView,
    z: Seq<int>,
    gamma: int,
    full: Sent,
    s: Sent,
)
    requires
        satisfied(c, z, gamma),
        2 <= c.a.len() <= longest(),
        s.ch.len() >= constraint_draws(c),
        all_off(3, prove_constraints(srs, c, z, gamma, s).1),
        extends(full, prove_constraints(srs, c, z, gamma, s).0),
    ensures
        extends(full, s),
        ({
            let (end, p) = prove_constraints(srs, c, z, gamma, s);
            let (st, k) = verify_constraints(rest_of(full, s));
            &&& st == rest_of(full, end)
            &&& end.ch == s.ch.skip(constraint_draws(c))
            &&& k.witness == commit_of(srs, z.skip(c.weight_len))
            &&& k.point == p
            &&& p.len() == log2_ceil(c.a.len() as int)
            &&& k.products == seq![
                mle(rows_value(c.a, z, gamma), p),
                mle(rows_value(c.b, z, gamma), p),
                mle(rows_value(c.c, z, gamma), p),
            ]
        }),
{
    reveal(prove_constraints);
    reveal(verify_constraints);
    let n = c.a.len() as int;
    let nv = log2_ceil(n) as int;
    lemma_log2_ceil(n);
    let w = commit_of(srs, z.skip(c.weight_len));
    let s0 = send_points(s, w);
    let s1 = send_u(s0, n);
    let req = s1.ch.take(nv);
    let eq = eq_table(req).take(n);
    let s2 = drawn(s1, nv);
    let point = s2.ch.take(nv);
    let tabs = seq![
        rows_value(c.a, z, gamma),
        rows_value(c.b, z, gamma),
        rows_value(c.c, z, gamma),
        eq,
    ];
    let none = Seq::<int>::empty();
    let g = constraint();
    let s3 = send_rounds(s2, g, none, tabs, n, 3, nv);
    let vals = values_at(tabs, point).take(3);
    let end = send_fs(s3, vals);
    lemma_read_fs(full, s3, vals);
    lemma_constraint_sum(c, z, gamma, eq);
    lemma_gate_degrees();
    reveal_with_fuel(gate_fits, 5);
    lemma_vanishing(none);
    assert(same_len(tabs, n)) by {
        assert forall|t: int| 0 <= t < tabs.len() implies (#[trigger] tabs[t]).len() == n by {}
    }
    law_rounds(g, none, tabs, n, 3, nv, 0, full, s2);
    lemma_challenges(full, s1, nv);
    lemma_read_len(full, s0, n, 2);
    lemma_read_points(full, s, w);
    let x = values_at(tabs, point);
    lemma_gate_values(x, none);
    lemma_mle_eq_take(req, point, n);
    assert(x[0] == mle(tabs[0], point));
    assert(x[1] == mle(tabs[1], point));
    assert(x[2] == mle(tabs[2], point));
    assert(x[3] == mle(tabs[3], point));
    assert(vals =~= seq![
        mle(rows_value(c.a, z, gamma), point),
        mle(rows_value(c.b, z, gamma), point),
        mle(rows_value(c.c, z, gamma), point),
    ]);
    assert(end.ch =~= s.ch.skip(2 * nv));
}

/// No element is found at two places of a table.
pub open spec fn told_apart(ele: Seq<int>, tab: Seq<int>) -> bool {
    forall|k: int, i: int, j: int|
        #![trigger ele[k], tab[i], tab[j]]
        0 <= k < ele.len() && 0 <= i < tab.len() && 0 <= j < tab.len() && cong(ele[k], tab[i])
            && cong(ele[k], tab[j]) ==> i == j
}

/// Each element is an entry of a table.
pub open spec fn all_in(ele: Seq<int>, tab: Seq<int>) -> bool {
    forall|i: int| 0 <= i < ele.len() ==> is_in(#[trigger] ele[i], tab)
}

/// An element is an entry of a table.
pub open spec fn is_in(x: int, tab: Seq<int>) -> bool {
    exists|j: int| 0 <= j < tab.len() && cong(x, #[trigger] tab[j])
}

/// The inverses for the elements of a table add up to those of the table, weighted by how
/// often each entry occurs.
pub proof fn law_lookup_sum(ele: Seq<int>, tab: Seq<int>, alpha: int)
    requires
        all_invertible(ele, alpha),
        all_invertible(tab, alpha),
        told_apart(ele, tab),
        all_in(ele, tab),
    ensures
        cong(
            total(shifted_inverses(ele, alpha)),
            read_sum(shifted_inverses(tab, alpha), occurrences(ele, tab)),
        ),
{
    let n = ele.len() as int;
    let m = tab.len() as int;
    let v = shifted_inverses(tab, alpha);
    let u = shifted_inverses(ele, alpha);
    let c = occurrences(ele, tab);
    let t = |j: int, i: int| v[j] * one_if(cong(ele[i], tab[j]));
    let a = |j: int| v[j] * c[j];
    let b = |j: int| sum_to(n, |i: int| t(j, i));
    assert forall|j: int| 0 <= j < m implies #[trigger] a(j) == b(j) by {
        let tj = tab[j];
        let x = |i: int| one_if(cong(ele[i], tj));
        assert(c[j] == sum_to(n, x));
        lemma_sum_scale(n, v[j], x);
        lemma_sum_eq(n, |i: int| v[j] * x(i), |i: int| t(j, i));
    }
    lemma_sum_eq(m, a, b);
    lemma_sum_swap(m, n, t);
    let d = |i: int| sum_to(m, |j: int| t(j, i));
    let e = |i: int| u[i];
    assert forall|i: int| 0 <= i < n implies cong(#[trigger] e(i), d(i)) by {
        assert(is_in(ele[i], tab));
        let k = choose|j: int| 0 <= j < tab.len() && cong(ele[i], #[trigger] tab[j]);
        let f = |j: int| t(j, i);
        assert forall|j: int| 0 <= j < m && j != k implies #[trigger] f(j) == 0 by {
            assert(v[j] * 0 == 0);
        }
        lemma_sum_single(m, k, f);
        assert(v[k] * 1 == v[k]);
        assert(invertible(ele[i] + alpha));
        assert(invertible(tab[k] + alpha));
        lemma_cong_ops(ele[i], tab[k], alpha, alpha);
        lemma_inverse_cong(ele[i] + alpha, tab[k] + alpha);
    }
    lemma_sum_cong(n, e, d);
}

/// The lookups of a vector that satisfies a circuit are in the table.
proof fn lemma_lookups_in(c: CircuitView, z: Seq<int>, gamma: int, r: int)
    requires
        satisfied(c, z, gamma),
    ensures
        all_in(
            lookup_prints(c.tp, rows_value(c.d, z, gamma), rows_value(c.e, z, gamma), r),
            table_prints(c.table, r),
        ),
{
    let d = rows_value(c.d, z, gamma);
    let e = rows_value(c.e, z, gamma);
    let ele = lookup_prints(c.tp, d, e, r);
    let tab = table_prints(c.table, r);
    assert forall|i: int| 0 <= i < ele.len() implies is_in(#[trigger] ele[i], tab) by {
        assert(table_has(
            c.table,
            row_value(c.d[i], z, gamma),
            row_value(c.e[i], z, gamma),
            c.tp[i],
        ));
        let k = choose|k: int|
            0 <= k < c.table.len() && cong((#[trigger] c.table[k]).0, d[i]) && cong(
                c.table[k].1,
                e[i],
            ) && cong(c.table[k].2, c.tp[i]);
        let x = c.table[k];
        lemma_cong_ops(x.2, c.tp[i], r, r);
        lemma_cong_ops(x.2 * r, c.tp[i] * r, x.1, e[i]);
        lemma_cong_ops(x.2 * r + x.1, c.tp[i] * r + e[i], r, r);
        lemma_cong_ops((x.2 * r + x.1) * r, (c.tp[i] * r + e[i]) * r, x.0, d[i]);
        assert(tab[k] == ((x.2 * r) + x.1) * r + x.0);
        assert(cong(ele[i], tab[k]));
    }
}

/// The expression for the elements of the lookups adds up to their inverses.
proof fn lemma_element_sum(ele: Seq<int>, inv: Seq<int>, eq: Seq<int>, alpha: int, r: int)
    requires
        inverse_to(ele, inv, alpha),
        eq.len() == ele.len(),
    ensures
        cong(
            whole_sum(
                logup_left(),
                seq![r],
                seq![shifted(ele, alpha), inv, eq],
                ele.len() as int,
            ),
            total(inv) * r,
        ),
{
    let n = ele.len() as int;
    let tabs = seq![shifted(ele, alpha), inv, eq];
    let c = seq![r];
    let a = |j: int| crate::replay::row_value(logup_left(), c, tabs, j);
    let x = |i: int| inv[i];
    let b = |j: int| r * x(j);
    assert forall|j: int| 0 <= j < n implies cong(#[trigger] a(j), b(j)) by {
        let v = row_at(tabs, j);
        lemma_gate_values(v, c);
        assert(v[0] == at(tabs[0], j));
        assert(v[1] == at(tabs[1], j));
        assert(v[2] == at(tabs[2], j));
        let p = (ele[j] + alpha) * inv[j];
        let q = eq[j];
        assert(cong(p, 1));
        lemma_cong_ops(p, 1, 1, 1);
        lemma_cong_ops(p - 1, 0, q, q);
        assert(0 * q == 0);
        let rest = r * inv[j];
        lemma_cong_ops((p - 1) * q, 0, rest, rest);
    }
    lemma_sum_cong(n, a, b);
    lemma_sum_scale(n, r, x);
    let t = sum_to(n, x);
    assert(r * t == t * r) by (nonlinear_arith);
}

/// What the verifier is left with after the lookups.
pub open spec fn lookups_left(
    srs: Seq<int>,
    c: CircuitView,
    z: Seq<int>,
    gamma: int,
    r: int,
    alpha: int,
    pl: Seq<int>,
    pr: Seq<int>,
) -> LookupClaims {
    let d = rows_value(c.d, z, gamma);
    let e = rows_value(c.e, z, gamma);
    let polys = lookup_polys(c, d, e, r, alpha);
    LookupClaims {
        r,
        alpha,
        count: commit_of(srs, polys.count),
        ele_inv: commit_of(srs, polys.ele_inv),
        tab_inv: commit_of(srs, polys.tab_inv),
        len: c.d.len() as int,
        left: pl,
        ele: mle(shifted(lookup_prints(c.tp, d, e, r), alpha), pl),
        ele_inv_value: mle(polys.ele_inv, pl),
        values: seq![mle(d, pl), mle(e, pl), mle(c.tp, pl)],
        right: pr,
        tab: mle(shifted(table_prints(c.table, r), alpha), pr),
        tab_inv_value: mle(polys.tab_inv, pr),
        count_value: mle(polys.count, pr),
    }
}

/// The lookups of a vector that satisfies a circuit are accepted.
#[verifier::rlimit(40)]
proof fn lemma_lookups_accepted(
    srs: Seq<int>,
    c: CircuitView,
    z: Seq<int>,
    gamma: int,
    full: Sent,
    s: Sent,
)
    requires
        satisfied(c, z, gamma),
        2 <= c.d.len() <= longest(),
        2 <= c.table.len() <= longest(),
        s.ch.len() >= lookup_draws(c),
        lookups_ready(c, z, gamma, s.ch),
        told_apart(
            lookup_prints(
                c.tp,
                rows_value(c.d, z, gamma),
                rows_value(c.e, z, gamma),
                s.ch[0],
            ),
            table_prints(c.table, s.ch[0]),
        ),
        all_off(3, prove_lookups(srs, c, z, gamma, s).1),
        all_off(3, prove_lookups(srs, c, z, gamma, s).2),
        extends(full, prove_lookups(srs, c, z, gamma, s).0),
    ensures
        extends(full, s),
        ({
            let (end, pl, pr) = prove_lookups(srs, c, z, gamma, s);
            &&& verify_lookups(rest_of(full, s)) == (
                rest_of(full, end),
                lookups_left(srs, c, z, gamma, s.ch[0], s.ch[1], pl, pr),
            )
            &&& end.ch == s.ch.skip(lookup_draws(c))
            &&& pl.len() == log2_ceil(c.d.len() as int)
            &&& pr.len() == log2_ceil(c.table.len() as int)
        }),
{
    reveal(prove_lookups);
    reveal(verify_lookups);
    let d = rows_value(c.d, z, gamma);
    let e = rows_value(c.e, z, gamma);
    let r = s.ch[0];
    let alpha = s.ch[1];
    let s0 = drawn(s, 2);
    let ele = lookup_prints(c.tp, d, e, r);
    let tab = table_prints(c.table, r);
    let polys = lookup_polys(c, d, e, r, alpha);
    let s1 = send_commit(s0, srs, polys.count);
    let s2 = send_commit(s1, srs, polys.ele_inv);
    let s3 = send_commit(s2, srs, polys.tab_inv);
    let sum = total(polys.ele_inv);
    let s4 = send_fs(s3, seq![sum]);
    let len = ele.len() as int;
    let nv = log2_ceil(len) as int;
    lemma_log2_ceil(len);
    let s5 = send_u(s4, len);
    let req = s5.ch.take(nv);
    let eq = eq_table(req).take(len);
    let s6 = drawn(s5, nv);
    let rs = s6.ch[0];
    let s7 = drawn(s6, 1);
    let pl = s7.ch.take(nv);
    let tabs = seq![shifted(ele, alpha), polys.ele_inv, eq];
    let g = logup_left();
    let coins = seq![rs];
    let s70 = send_rounds(s7, g, coins, tabs, len, 3, nv);
    let v1 = values_at(tabs, pl).take(2);
    let s8 = send_fs(s70, v1);
    let v2 = seq![mle(d, pl), mle(e, pl), mle(c.tp, pl)];
    let s9 = send_fs(s8, v2);
    let (end, pr) = prove_right(tab, polys.tab_inv, polys.count, alpha, s9);
    assert(s9.ch =~= s.ch.skip(3 + 2 * nv));
    lemma_inverse_to(ele, alpha);
    lemma_inverse_to(tab, alpha);
    lemma_lookups_in(c, z, gamma, r);
    law_lookup_sum(ele, tab, alpha);
    lemma_right_accepted(tab, polys.tab_inv, polys.count, alpha, sum, 2, full, s9);
    lemma_read_fs(full, s8, v2);
    lemma_read_fs(full, s70, v1);
    lemma_element_sum(ele, polys.ele_inv, eq, alpha, rs);
    lemma_gate_degrees();
    reveal_with_fuel(gate_fits, 6);
    lemma_vanishing(coins);
    assert(same_len(tabs, len)) by {
        assert forall|t: int| 0 <= t < tabs.len() implies (#[trigger] tabs[t]).len() == len by {}
    }
    law_rounds(g, coins, tabs, len, 3, nv, sum * rs, full, s7);
    lemma_challenge(full, s6);
    lemma_challenges(full, s5, nv);
    lemma_read_len(full, s4, len, 2);
    lemma_read_f(full, s3, sum);
    lemma_read_points(full, s2, commit_of(srs, polys.tab_inv));
    lemma_read_points(full, s1, commit_of(srs, polys.ele_inv));
    lemma_read_points(full, s0, commit_of(srs, polys.count));
    let sa = drawn(s, 1);
    lemma_challenge(full, s);
    lemma_challenge(full, sa);
    assert(drawn(sa, 1).ch =~= s0.ch);
    assert(drawn(sa, 1) == s0);
    let x = values_at(tabs, pl);
    lemma_gate_values(x, coins);
    lemma_mle_eq_take(req, pl, len);
    assert(x[0] == mle(tabs[0], pl));
    assert(x[1] == mle(tabs[1], pl));
    assert(x[2] == mle(tabs[2], pl));
    assert(end.ch =~= s.ch.skip(lookup_draws(c)));
}

/// Five rows joined, as sums of a row and a multiple of the others.
proof fn lemma_joined(m: Seq<Seq<int>>, r: int)
    requires
        m.len() == 5,
        same_len(m, m[0].len() as int),
    ensures
        joined(m, r) == affine(m[0], affine(m[1], affine(m[2], affine(m[3], m[4], r), r), r), r),
{
    let n = m[0].len() as int;
    assert(m[1].len() == n && m[2].len() == n && m[3].len() == n && m[4].len() == n);
    let a = joined(m, r);
    let b = affine(m[0], affine(m[1], affine(m[2], affine(m[3], m[4], r), r), r), r);
    assert forall|i: int| 0 <= i < n implies a[i] == b[i] by {
        lemma_nested(m[0][i], m[1][i], m[2][i], m[3][i], m[4][i], r);
    }
    assert(a =~= b);
}

pub proof fn lemma_nested(a: int, b: int, c: int, d: int, e: int, r: int)
    ensures
        (((e * r + d) * r + c) * r + b) * r + a == a + r * (b + r * (c + r * (d + r * e))),
{
    assert(e * r == r * e) by (nonlinear_arith);
    let x = d + r * e;
    assert(x * r == r * x) by (nonlinear_arith);
    let y = c + r * x;
    assert(y * r == r * y) by (nonlinear_arith);
    let z = b + r * y;
    assert(z * r == r * z) by (nonlinear_arith);
}

/// The product of a row and a multiple of another with a vector.
proof fn lemma_dot_affine(a: Seq<int>, b: Seq<int>, r: int, z: Seq<int>)
    requires
        a.len() == b.len(),
    ensures
        dot(affine(a, b, r), z) == dot(a, z) + r * dot(b, z),
{
    let n = a.len() as int;
    let x = |i: int| a[i] * z[i];
    let y = |i: int| b[i] * z[i];
    let ry = |i: int| r * y(i);
    lemma_sum_scale(n, r, y);
    lemma_sum_add(n, x, ry);
    let c = affine(a, b, r);
    let l = |i: int| c[i] * z[i];
    let s = |i: int| x(i) + ry(i);
    assert forall|i: int| 0 <= i < n implies #[trigger] l(i) == s(i) by {
        let u = a[i];
        let v = b[i];
        let w = z[i];
        assert((u + r * v) * w == u * w + r * (v * w)) by (nonlinear_arith);
    }
    lemma_sum_eq(n, l, s);
}

/// The products of five rows with a vector.
pub open spec fn five_dots(m: Seq<Seq<int>>, z: Seq<int>) -> Seq<int> {
    seq![dot(m[0], z), dot(m[1], z), dot(m[2], z), dot(m[3], z), dot(m[4], z)]
}

/// The values of five rows at a point.
pub open spec fn five_values(m: Seq<Seq<int>>, p: Seq<int>) -> Seq<int> {
    seq![mle(m[0], p), mle(m[1], p), mle(m[2], p), mle(m[3], p), mle(m[4], p)]
}

/// Joining commutes with products and with values.
pub proof fn lemma_joined_sums(m: Seq<Seq<int>>, r: int, z: Seq<int>, p: Seq<int>)
    requires
        m.len() == 5,
        same_len(m, m[0].len() as int),
    ensures
        dot(joined(m, r), z) == joined_values(five_dots(m, z), r),
        mle(joined(m, r), p) == joined_values(five_values(m, p), r),
{
    let n = m[0].len() as int;
    assert(m[1].len() == n && m[2].len() == n && m[3].len() == n && m[4].len() == n);
    lemma_joined(m, r);
    let d = affine(m[3], m[4], r);
    let c = affine(m[2], d, r);
    let b = affine(m[1], c, r);
    lemma_dot_affine(m[3], m[4], r, z);
    lemma_dot_affine(m[2], d, r, z);
    lemma_dot_affine(m[1], c, r, z);
    lemma_dot_affine(m[0], b, r, z);
    lemma_nested(dot(m[0], z), dot(m[1], z), dot(m[2], z), dot(m[3], z), dot(m[4], z), r);
    lemma_mle_affine(m[3], m[4], r, p);
    lemma_mle_affine(m[2], d, r, p);
    lemma_mle_affine(m[1], c, r, p);
    lemma_mle_affine(m[0], b, r, p);
    lemma_nested(mle(m[0], p), mle(m[1], p), mle(m[2], p), mle(m[3], p), mle(m[4], p), r);
}

proof fn lemma_linear_extends(m: Seq<Seq<int>>, z: Seq<int>, full: Sent, s: Sent)
    requires
        extends(full, prove_linear(m, z, s).0),
    ensures
        extends(full, s),
{
    reveal(prove_linear);
    let end = prove_linear(m, z, s).0;
    assert(s.u =~= end.u.take(s.u.len() as int));
    assert(s.f =~= end.f.take(s.f.len() as int));
    assert(s.g =~= end.g.take(s.g.len() as int));
    lemma_extends(full, s, end);
}

/// The joined product of five rows with a vector is accepted.
proof fn lemma_linear_accepted(m: Seq<Seq<int>>, z: Seq<int>, full: Sent, s: Sent)
    requires
        m.len() == 5,
        same_len(m, z.len() as int),
        z.len() > 0,
        s.ch.len() >= linear_draws(z.len() as int),
        all_off(2, prove_linear(m, z, s).1),
        extends(full, prove_linear(m, z, s).0),
    ensures
        extends(full, s),
        ({
            let (end, p) = prove_linear(m, z, s);
            &&& verify_linear(rest_of(full, s)) == (
                rest_of(full, end),
                LinearClaims {
                    sums: five_dots(m, z),
                    r: s.ch[0],
                    point: p,
                    m: joined_values(five_values(m, p), s.ch[0]),
                    z: mle(z, p),
                },
            )
            &&& end.ch == s.ch.skip(linear_draws(z.len() as int))
            &&& p.len() == log2_ceil(z.len() as int)
        }),
{
    reveal(prove_linear);
    reveal(verify_linear);
    let sums = five_dots(m, z);
    let s1 = send_fs(s, sums);
    let r = s1.ch[0];
    let len = z.len() as int;
    let nv = log2_ceil(len) as int;
    lemma_log2_ceil(len);
    let s11 = drawn(s1, 1);
    let s2 = send_u(s11, nv);
    let point = s2.ch.take(nv);
    let j = joined(m, r);
    let tabs = seq![j, z];
    let none = Seq::<int>::empty();
    let g = product2();
    let s3 = send_rounds(s2, g, none, tabs, len, 2, nv);
    let vals = values_at(tabs, point);
    let end = send_fs(s3, vals);
    assert(m[0].len() == len);
    lemma_joined_sums(m, r, z, point);
    lemma_read_fs(full, s3, vals);
    let f = |i: int| crate::replay::row_value(g, none, tabs, i);
    let h = |i: int| j[i] * z[i];
    assert forall|i: int| 0 <= i < len implies #[trigger] f(i) == h(i) by {
        let v = row_at(tabs, i);
        lemma_gate_values(v, none);
        assert(v[0] == at(tabs[0], i));
        assert(v[1] == at(tabs[1], i));
    }
    lemma_sum_eq(len, f, h);
    lemma_gate_degrees();
    reveal_with_fuel(gate_fits, 3);
    lemma_vanishing(none);
    assert(same_len(tabs, len)) by {
        assert forall|t: int| 0 <= t < tabs.len() implies (#[trigger] tabs[t]).len() == len by {}
    }
    law_rounds(g, none, tabs, len, 2, nv, joined_values(sums, r), full, s2);
    lemma_messages_len(g, none, tabs, len, 2, s2.ch.take(nv));
    assert(full.f.len() >= s2.f.len() + 3 * nv);
    lemma_read_u(full, s11, nv);
    lemma_challenge(full, s1);
    lemma_read_fs(full, s, sums);
    lemma_gate_values(vals, none);
    assert(vals[0] == mle(tabs[0], point));
    assert(vals[1] == mle(tabs[1], point));
    assert(end.ch =~= s.ch.skip(1 + nv));
}

/// Values at a point depend on residues alone.
pub proof fn lemma_mle_cong(f: Seq<int>, g: Seq<int>, p: Seq<int>)
    requires
        f.len() == g.len(),
        forall|i: int| 0 <= i < f.len() ==> cong(#[trigger] f[i], g[i]),
    ensures
        cong(mle(f, p), mle(g, p)),
{
    let a = |i: int| f[i] * eq_at(p, i);
    let b = |i: int| g[i] * eq_at(p, i);
    assert forall|i: int| 0 <= i < f.len() implies cong(#[trigger] a(i), b(i)) by {
        lemma_cong_ops(f[i], g[i], eq_at(p, i), eq_at(p, i));
    }
    lemma_sum_cong(f.len() as int, a, b);
}

/// The value of the fingerprints of the lookups.
pub proof fn lemma_mle_prints(tp: Seq<int>, d: Seq<int>, e: Seq<int>, r: int, p: Seq<int>)
    requires
        tp.len() == d.len(),
        e.len() == d.len(),
    ensures
        mle(lookup_prints(tp, d, e, r), p) == (mle(tp, p) * r + mle(e, p)) * r + mle(d, p),
{
    let x = affine(e, tp, r);
    let y = affine(d, x, r);
    let f = lookup_prints(tp, d, e, r);
    assert forall|i: int| 0 <= i < d.len() implies f[i] == y[i] by {
        let a = tp[i];
        let b = e[i];
        assert(a * r == r * a) by (nonlinear_arith);
        let q = b + r * a;
        assert(q * r == r * q) by (nonlinear_arith);
    }
    assert(f =~= y);
    lemma_mle_affine(e, tp, r, p);
    lemma_mle_affine(d, x, r, p);
    let a = mle(tp, p);
    let b = mle(e, p);
    assert(a * r == r * a) by (nonlinear_arith);
    let q = b + r * a;
    assert(q * r == r * q) by (nonlinear_arith);
}

/// The value of the fingerprints of a table.
pub proof fn lemma_mle_table(t: Seq<(int, int, int)>, r: int, p: Seq<int>)
    ensures
        mle(table_prints(t, r), p) == (mle(table_tags(t), p) * r + mle(table_outputs(t), p)) * r
            + mle(table_inputs(t), p),
{
    lemma_mle_prints(table_tags(t), table_inputs(t), table_outputs(t), r, p);
    assert(table_prints(t, r) =~= lookup_prints(
        table_tags(t),
        table_inputs(t),
        table_outputs(t),
        r,
    ));
}

/// The values of the matrices are those of the columns that the products are with.
pub proof fn lemma_matrix_values(
    c: CircuitView,
    chunk: int,
    p1: Seq<int>,
    pl: Seq<int>,
    ps: Seq<int>,
    pp: Seq<int>,
    gamma: int,
)
    requires
        circuit_fits(c, chunk),
        points_fit(c, p1, pl, ps, pp),
    ensures
        ({
            let wl = c.weight_len;
            let e = sparse_values(c, p1, pl, ps, pp, gamma);
            let suf = five_columns(c, p1, pl, wl, c.z_len - wl, gamma);
            let pre = five_columns(c, p1, pl, 0, wl, gamma);
            &&& e.len() == 10
            &&& e.take(5) == five_values(suf, ps)
            &&& e.skip(5) == five_values(pre, pp)
        }),
{
    reveal(sparse_values);
    let wl = c.weight_len;
    let n = c.z_len - wl;
    let top = usize::MAX as int;
    lemma_log2_ceil(n);
    lemma_log2_ceil(wl);
    let e1 = eq_table(p1);
    let el = eq_table(pl);
    lemma_mle_columns(c.a, e1, wl, n, top, ps, gamma);
    lemma_mle_columns(c.b, e1, wl, n, top, ps, gamma);
    lemma_mle_columns(c.c, e1, wl, n, top, ps, gamma);
    lemma_mle_columns(c.d, el, wl, n, top, ps, gamma);
    lemma_mle_columns(c.e, el, wl, n, top, ps, gamma);
    lemma_mle_columns(c.a, e1, 0, wl, wl, pp, gamma);
    lemma_mle_columns(c.b, e1, 0, wl, wl, pp, gamma);
    lemma_mle_columns(c.c, e1, 0, wl, wl, pp, gamma);
    lemma_mle_columns(c.d, el, 0, wl, wl, pp, gamma);
    lemma_mle_columns(c.e, el, 0, wl, wl, pp, gamma);
    let e = sparse_values(c, p1, pl, ps, pp, gamma);
    let suf = five_columns(c, p1, pl, wl, n, gamma);
    let pre = five_columns(c, p1, pl, 0, wl, gamma);
    assert(e.take(5) =~= five_values(suf, ps));
    assert(e.skip(5) =~= five_values(pre, pp));
}

/// The claims on what the witness commits to are right.
proof fn lemma_witness_claims(
    srs: Seq<int>,
    c: CircuitView,
    z: Seq<int>,
    gamma: int,
    r: int,
    alpha: int,
    ps: Seq<int>,
    pl: Seq<int>,
    pr: Seq<int>,
    k: ConstraintClaims,
    suf: LinearClaims,
)
    requires
        provable(c),
        z.len() == c.z_len,
        0 <= c.weight_len,
        k.witness == commit_of(srs, z.skip(c.weight_len)),
        suf.point == ps,
        suf.z == mle(z.skip(c.weight_len), ps),
        ps.len() == log2_ceil(c.z_len - c.weight_len),
        pl.len() == log2_ceil(c.d.len() as int),
        pr.len() == log2_ceil(c.table.len() as int),
    ensures
        claims_match(
            srs,
            witness_acc(c, z, gamma, r, alpha, ps, pl, pr),
            witness_claims(k, lookups_left(srs, c, z, gamma, r, alpha, pl, pr), suf),
        ),
{
    let a = witness_acc(c, z, gamma, r, alpha, ps, pl, pr);
    let v = witness_claims(k, lookups_left(srs, c, z, gamma, r, alpha, pl, pr), suf);
    let none = Acc { polys: Seq::empty(), points: Seq::empty() };
    let v0 = VerAcc { commits: Seq::empty(), points: Seq::empty(), values: Seq::empty() };
    assert(claims_match(srs, none, v0));
    let f = a.polys;
    let p = a.points;
    lemma_claims_push(srs, none, v0, f[0], p[0], v.values[0]);
    let a1 = acc_push(none, f[0], p[0]);
    let v1 = ver_push(v0, commit_of(srs, f[0]), p[0], v.values[0]);
    lemma_claims_push(srs, a1, v1, f[1], p[1], v.values[1]);
    let a2 = acc_push(a1, f[1], p[1]);
    let v2 = ver_push(v1, commit_of(srs, f[1]), p[1], v.values[1]);
    lemma_claims_push(srs, a2, v2, f[2], p[2], v.values[2]);
    let a3 = acc_push(a2, f[2], p[2]);
    let v3 = ver_push(v2, commit_of(srs, f[2]), p[2], v.values[2]);
    lemma_claims_push(srs, a3, v3, f[3], p[3], v.values[3]);
    let a4 = acc_push(a3, f[3], p[3]);
    let v4 = ver_push(v3, commit_of(srs, f[3]), p[3], v.values[3]);
    assert(a4.polys =~= a.polys);
    assert(a4.points =~= a.points);
    assert(v4.commits =~= v.commits);
    assert(v4.points =~= v.points);
    assert(v4.values =~= v.values);
}

/// The claims on the public polynomials are right.
proof fn lemma_public_claims(
    srs: Seq<int>,
    vp: crate::kzg::VerParams,
    c: CircuitView,
    pp: Seq<int>,
    pl: Seq<int>,
    pr: Seq<int>,
    l: LookupClaims,
    pre: LinearClaims,
)
    requires
        provable(c),
        c.weights.len() == c.weight_len,
        c.tp.len() == c.d.len(),
        l.left == pl,
        l.right == pr,
        pre.point == pp,
        pp.len() == log2_ceil(c.weight_len),
        pl.len() == log2_ceil(c.d.len() as int),
        pr.len() == log2_ceil(c.table.len() as int),
    ensures
        claims_match(
            srs,
            public_acc(c, pp, pl, pr),
            public_claims(key_of(srs, vp, c), l, pre, public_values(c, pp, pl, pr)),
        ),
{
    let a = public_acc(c, pp, pl, pr);
    let v = public_claims(key_of(srs, vp, c), l, pre, public_values(c, pp, pl, pr));
    let none = Acc { polys: Seq::empty(), points: Seq::empty() };
    let v0 = VerAcc { commits: Seq::empty(), points: Seq::empty(), values: Seq::empty() };
    assert(claims_match(srs, none, v0));
    let f = a.polys;
    let p = a.points;
    lemma_claims_push(srs, none, v0, f[0], p[0], v.values[0]);
    let a1 = acc_push(none, f[0], p[0]);
    let v1 = ver_push(v0, commit_of(srs, f[0]), p[0], v.values[0]);
    lemma_claims_push(srs, a1, v1, f[1], p[1], v.values[1]);
    let a2 = acc_push(a1, f[1], p[1]);
    let v2 = ver_push(v1, commit_of(srs, f[1]), p[1], v.values[1]);
    lemma_claims_push(srs, a2, v2, f[2], p[2], v.values[2]);
    let a3 = acc_push(a2, f[2], p[2]);
    let v3 = ver_push(v2, commit_of(srs, f[2]), p[2], v.values[2]);
    lemma_claims_push(srs, a3, v3, f[3], p[3], v.values[3]);
    let a4 = acc_push(a3, f[3], p[3]);
    let v4 = ver_push(v3, commit_of(srs, f[3]), p[3], v.values[3]);
    lemma_claims_push(srs, a4, v4, f[4], p[4], v.values[4]);
    let a5 = acc_push(a4, f[4], p[4]);
    let v5 = ver_push(v4, commit_of(srs, f[4]), p[4], v.values[4]);
    lemma_claims_push(srs, a5, v5, f[5], p[5], v.values[5]);
    let a6 = acc_push(a5, f[5], p[5]);
    let v6 = ver_push(v5, commit_of(srs, f[5]), p[5], v.values[5]);
    assert(a6.polys =~= a.polys);
    assert(a6.points =~= a.points);
    assert(v6.commits =~= v.commits);
    assert(v6.points =~= v.points);
    assert(v6.values =~= v.values);
}

/// None of the challenges of the sumchecks of a proof is a node, and the challenge of the
/// lookups tells the rows of the table that are looked up from the others.
pub open spec fn prove_off(
    srs: Seq<int>,
    c: CircuitView,
    z: Seq<int>,
    gamma: int,
    ch: Seq<int>,
) -> bool {
    let t = prove_stages(srs, c, z, gamma, fresh(ch));
    &&& all_off(3, t.p1)
    &&& all_off(3, t.pl)
    &&& all_off(3, t.pr)
    &&& all_off(2, t.ps)
    &&& all_off(2, t.pp)
    &&& told_apart(
        lookup_prints(
            c.tp,
            rows_value(c.d, z, gamma),
            rows_value(c.e, z, gamma),
            t.s1.ch[0],
        ),
        table_prints(c.table, t.s1.ch[0]),
    )
    &&& sparse_off(sparse_claims(srs, c, t.p1, t.pl, t.ps, t.pp, gamma, t.s5).1)
}

/// At the points of a proof, only the second matrix reads parameters.
pub open spec fn proof_prefix_free(
    srs: Seq<int>,
    c: CircuitView,
    z: Seq<int>,
    gamma: int,
    ch: Seq<int>,
) -> bool {
    let t = prove_stages(srs, c, z, gamma, fresh(ch));
    prefix_free(sparse_values(c, t.p1, t.pl, t.ps, t.pp, gamma))
}

/// A vector starts with the parameters of a circuit.
pub open spec fn holds_weights(c: CircuitView, z: Seq<int>) -> bool {
    forall|i: int| 0 <= i < c.weight_len ==> cong(#[trigger] z[i], c.weights[i])
}

/// A matrix reads no parameter.
pub open spec fn reads_no_weight(rows: Seq<Seq<crate::circuit::Entry>>, wl: int) -> bool {
    forall|i: int, k: int|
        0 <= i < rows.len() && 0 <= k < rows[i].len() ==> wl <= (#[trigger] rows[i][k]).col
}

/// The value on the prefix columns of a matrix that reads no parameter is zero.
proof fn lemma_no_weight(
    rows: Seq<Seq<crate::circuit::Entry>>,
    m: int,
    v: Seq<int>,
    w: Seq<int>,
    wl: int,
    gamma: int,
)
    requires
        0 <= m <= rows.len(),
        reads_no_weight(rows, wl),
    ensures
        crate::circuit::matrix_mle(rows, m, v, w, 0, wl, gamma) == 0,
    decreases m,
{
    if m > 0 {
        lemma_no_weight(rows, m - 1, v, w, wl, gamma);
        let row = rows[m - 1];
        let f = |k: int| crate::circuit::mle_term(row[k], v[m - 1], w, 0, wl, gamma);
        assert forall|k: int| 0 <= k < row.len() implies #[trigger] f(k) == 0 by {
            assert(wl <= rows[m - 1][k].col);
        }
        lemma_sum_zero(row.len() as int, f);
    }
}

/// Where only the second matrix reads parameters, that is so at the points of every proof.
pub proof fn law_prefix_free(
    c: CircuitView,
    srs: Seq<int>,
    z: Seq<int>,
    gamma: int,
    ch: Seq<int>,
)
    requires
        reads_no_weight(c.a, c.weight_len),
        reads_no_weight(c.c, c.weight_len),
        reads_no_weight(c.d, c.weight_len),
        reads_no_weight(c.e, c.weight_len),
    ensures
        proof_prefix_free(srs, c, z, gamma, ch),
{
    reveal(sparse_values);
    let t = prove_stages(srs, c, z, gamma, fresh(ch));
    let ra = eq_table(t.p1);
    let rd = eq_table(t.pl);
    let cp = eq_table(t.pp);
    let w = c.weight_len;
    lemma_no_weight(c.a, c.a.len() as int, ra, cp, w, gamma);
    lemma_no_weight(c.c, c.c.len() as int, ra, cp, w, gamma);
    lemma_no_weight(c.d, c.d.len() as int, rd, cp, w, gamma);
    lemma_no_weight(c.e, c.e.len() as int, rd, cp, w, gamma);
}

/// The proof for a vector that satisfies a circuit, and starts with its parameters, is
/// accepted; both sides have drawn the same challenges in the end.
#[verifier::rlimit(80)]
pub proof fn law_accepted(
    g: int,
    h: int,
    tau: Seq<int>,
    c: CircuitView,
    z: Seq<int>,
    gamma: int,
    ch: Seq<int>,
)
    requires
        circuit_fits(c, pow2(tau.len()) as int),
        provable(c),
        z.len() == c.z_len,
        satisfied(c, z, gamma),
        holds_weights(c, z),
        prove_ready(srs_of(g, tau), c, z, gamma, ch),
        prove_off(srs_of(g, tau), c, z, gamma, ch),
        proof_prefix_free(srs_of(g, tau), c, z, gamma, ch),
    ensures
        ({
            let full = prove_of(srs_of(g, tau), c, z, gamma, ch);
            let st = verify_stages(
                key_of(srs_of(g, tau), ver_params_of(g, h, tau), c),
                gamma,
                unread(full.u, full.f, full.g, ch),
            );
            st.ok && st.ch == full.ch
        }),
{
    reveal(prove_stages);
    reveal(verify_stages);
    let srs = srs_of(g, tau);
    let vp = ver_params_of(g, h, tau);
    let chunk = pow2(tau.len()) as int;
    let wl = c.weight_len;
    let s = fresh(ch);
    let t = prove_stages(srs, c, z, gamma, s);
    let full = t.s8;
    let vk = key_of(srs, vp, c);
    let msuf = five_columns(c, t.p1, t.pl, wl, z.len() - wl, gamma);
    let mpre = five_columns(c, t.p1, t.pl, 0, wl, gamma);
    let zs = z.skip(wl);
    let zp = z.take(wl);
    let r = t.s1.ch[0];
    let alpha = t.s1.ch[1];
    let wacc = witness_acc(c, z, gamma, r, alpha, t.ps, t.pl, t.pr);
    let pacc = public_acc(c, t.pp, t.pl, t.pr);
    let pv = public_values(c, t.pp, t.pl, t.pr);
    let vals = sparse_values(c, t.p1, t.pl, t.ps, t.pp, gamma);
    // each stage starts with what was sent before it
    lemma_extends_self(full, ch);
    lemma_batch_extends(srs, pacc, full, t.s7);
    lemma_read_fs(full, t.s6, pv);
    lemma_sparse_extends(srs, c, t.p1, t.pl, t.ps, t.pp, gamma, full, t.s5);
    lemma_linear_extends(mpre, zp, full, t.s4);
    lemma_batch_extends(srs, wacc, full, t.s3);
    lemma_linear_extends(msuf, zs, full, t.s2);
    lemma_lookups_extends(srs, c, z, gamma, full, t.s1);
    lemma_constraints_extends(srs, c, z, gamma, full, s);
    // the constraints and the lookups
    lemma_constraints_accepted(srs, c, z, gamma, full, s);
    assert(full.u.skip(0) =~= full.u);
    assert(full.f.skip(0) =~= full.f);
    assert(full.g.skip(0) =~= full.g);
    assert(unread(full.u, full.f, full.g, ch) == rest_of(full, s));
    let (st1, k) = verify_constraints(rest_of(full, s));
    lemma_lookups_accepted(srs, c, z, gamma, full, t.s1);
    let l = lookups_left(srs, c, z, gamma, r, alpha, t.pl, t.pr);
    // the product with the witness
    assert(same_len(msuf, zs.len() as int)) by {
        assert forall|i: int| 0 <= i < msuf.len() implies (#[trigger] msuf[i]).len()
            == zs.len() by {}
    }
    lemma_linear_accepted(msuf, zs, full, t.s2);
    let suf = LinearClaims {
        sums: five_dots(msuf, zs),
        r: t.s2.ch[0],
        point: t.ps,
        m: joined_values(five_values(msuf, t.ps), t.s2.ch[0]),
        z: mle(zs, t.ps),
    };
    lemma_witness_claims(srs, c, z, gamma, r, alpha, t.ps, t.pl, t.pr, k, suf);
    lemma_batch_accepted(g, h, tau, wacc, witness_claims(k, l, suf), full, t.s3);
    // the product with the parameters
    assert(same_len(mpre, zp.len() as int)) by {
        assert forall|i: int| 0 <= i < mpre.len() implies (#[trigger] mpre[i]).len()
            == zp.len() by {}
    }
    lemma_linear_accepted(mpre, zp, full, t.s4);
    let pre = LinearClaims {
        sums: five_dots(mpre, zp),
        r: t.s4.ch[0],
        point: t.pp,
        m: joined_values(five_values(mpre, t.pp), t.s4.ch[0]),
        z: mle(zp, t.pp),
    };
    lemma_log2_ceil(c.a.len() as int);
    lemma_log2_ceil(c.d.len() as int);
    lemma_mle_rows(c.a, z, wl, t.p1, gamma);
    lemma_mle_rows(c.b, z, wl, t.p1, gamma);
    lemma_mle_rows(c.c, z, wl, t.p1, gamma);
    lemma_mle_rows(c.d, z, wl, t.pl, gamma);
    lemma_mle_rows(c.e, z, wl, t.pl, gamma);
    assert(products_add_up(k, l, suf, pre));
    // the matrices
    assert(points_fit(c, t.p1, t.pl, t.ps, t.pp));
    law_sparse_open(g, h, tau, c, t.p1, t.pl, t.ps, t.pp, gamma, full, t.s5);
    lemma_matrix_values(c, chunk, t.p1, t.pl, t.ps, t.pp, gamma);
    assert(joined_values(vals, suf.r) == joined_values(vals.take(5), suf.r));
    // the public polynomials
    assert(cong(pre.z, pv[0])) by {
        lemma_mle_cong(zp, c.weights, t.pp);
    }
    assert(public_explains(l, pre, pv)) by {
        let d = rows_value(c.d, z, gamma);
        let e = rows_value(c.e, z, gamma);
        let ele = lookup_prints(c.tp, d, e, r);
        let tab = table_prints(c.table, r);
        lemma_mle_prints(c.tp, d, e, r, t.pl);
        lemma_mle_shifted(ele, alpha, t.pl);
        lemma_mle_table(c.table, r, t.pr);
        lemma_mle_shifted(tab, alpha, t.pr);
        lemma_mle_ones(table_ones(c.table), t.pr);
    }
    lemma_public_claims(srs, vp, c, t.pp, t.pl, t.pr, l, pre);
    lemma_batch_accepted(g, h, tau, pacc, public_claims(vk, l, pre, pv), full, t.s7);
}

proof fn lemma_lookups_extends(
    srs: Seq<int>,
    c: CircuitView,
    z: Seq<int>,
    gamma: int,
    full: Sent,
    s: Sent,
)
    requires
        extends(full, prove_lookups(srs, c, z, gamma, s).0),
    ensures
        extends(full, s),
{
    reveal(prove_lookups);
    reveal(prove_right);
    let end = prove_lookups(srs, c, z, gamma, s).0;
    assert(s.u =~= end.u.take(s.u.len() as int));
    assert(s.f =~= end.f.take(s.f.len() as int));
    assert(s.g =~= end.g.take(s.g.len() as int));
    lemma_extends(full, s, end);
}

proof fn lemma_sparse_extends(
    srs: Seq<int>,
    c: CircuitView,
    abc: Seq<int>,
    de: Seq<int>,
    suf: Seq<int>,
    pre: Seq<int>,
    gamma: int,
    full: Sent,
    s: Sent,
)
    requires
        extends(
            full,
            sparse_open_of(
                srs,
                c,
                suffix_group(c),
                suffix_lens(c),
                prefix_group(c),
                abc,
                de,
                suf,
                pre,
                gamma,
                s,
            ),
        ),
    ensures
        extends(full, s),
{
    reveal(crate::sparse::prove_suffix);
    reveal(crate::sparse::prove_memory);
    let (s3, a2) = sparse_claims(srs, c, abc, de, suf, pre, gamma, s);
    lemma_batch_extends(srs, a2, full, s3);
    let none = Acc { polys: Seq::empty(), points: Seq::empty() };
    let vals = sparse_values(c, abc, de, suf, pre, gamma);
    let s1 = send_fs(s, vals);
    let (s2, a1) = crate::sparse::prove_suffix(
        srs,
        suffix_group(c),
        suffix_lens(c),
        abc,
        de,
        suf,
        gamma,
        s1,
        none,
    );
    crate::sparse_laws::lemma_prefix_extends(srs, prefix_group(c), abc, pre, gamma, s2, a1, full);
    crate::sparse_laws::lemma_suffix_extends(
        srs,
        suffix_group(c),
        suffix_lens(c),
        abc,
        de,
        suf,
        gamma,
        s1,
        none,
        full,
    );
    lemma_read_fs(full, s, vals);
}

} // verus!
