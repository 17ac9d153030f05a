//! Reads from tables, shown by sums of inverses, are accepted.
use vstd::prelude::*;
use vstd::arithmetic::power2::*;
use crate::channel::{challenge, challenges, longest, read_fs, read_len};
use crate::claims::{claims_match, lemma_claims_push};
use crate::field::{cong, invertible, lemma_cong_ops, lemma_inverse_of};
use crate::gates::{
    constraint, lemma_gate_degrees, lemma_gate_values, logup_combined, logup_left, logup_right,
    product2, product3, product4,
};
use crate::interpolation::lemma_sum_cong;
use crate::kzg::commit_of;
use crate::poly::{at, eq_prefix, mle};
use crate::replay::{
    all_off, extends, law_rounds, lemma_challenge, lemma_challenges, lemma_read_fs, lemma_read_len,
    lemma_read_points, rest_of, row_at, row_value, vanishes, whole_sum,
};
use crate::shapes::{
    lemma_mle_affine, lemma_mle_eq_take, lemma_mle_fingerprints, lemma_mle_shifted,
};
use crate::sparse::{
    Acc, GroupView, acc_push, affine, all_invertible, below, counts, eq_table, fingerprints,
    group_commits, group_ok, memory_draws, memory_ready, one_if, prove_left, prove_memory,
    prove_right, reads, shifted, shifted_inverses, total,
};
use crate::sparse_verifier::{ShapeView, VerAcc, shape_at, ver_push, verify_memory, verify_right};
use crate::speaker::{Sent, drawn, send_commit, send_fs, send_rounds, send_u};
use crate::sumcheck::{
    gate_fits, lemma_log2_ceil, lemma_log2_unique, log2_ceil, same_len, values_at, verify_rounds,
};
use crate::sums::{
    lemma_pow2_step, lemma_sum_add, lemma_sum_eq, lemma_sum_scale, lemma_sum_single, lemma_sum_swap,
    sum_to,
};

verus! {

proof fn lemma_zero_terms(a: int, b: int, d: int, e: int, x: int)
    by (nonlinear_arith)
    requires
        a == 0,
        b == 0,
        d == 0,
        e == 0,
    ensures
        (a * b - 1) * d + x * b == 0,
        (a * b - 1) * e + x * b * d == 0,
{
}

/// The expressions of the protocol are zero where their tables are.
pub proof fn lemma_vanishing(c: Seq<int>)
    ensures
        vanishes(product2(), c, 2),
        vanishes(product3(), c, 3),
        vanishes(product4(), c, 4),
        vanishes(constraint(), c, 4),
        vanishes(logup_left(), c, 3),
        vanishes(logup_right(), c, 4),
        vanishes(logup_combined(), c, 7),
{
    let x = c[0];
    let y = c[1];
    let z = c[2];
    assert(((0 * 0 - 1) + x * (0 * 0 - 1) + y * (0 * 0 - 1)) * 0 + z * (0 + x * 0 + y * 0) == 0)
        by (nonlinear_arith);
    lemma_gate_values(Seq::new(2, |i: int| 0int), c);
    let v3 = Seq::new(3, |i: int| 0int);
    let v4 = Seq::new(4, |i: int| 0int);
    lemma_gate_values(v3, c);
    lemma_gate_values(v4, c);
    lemma_zero_terms(v3[0], v3[1], v3[2], v3[2], x);
    lemma_zero_terms(v4[0], v4[1], v4[2], v4[3], x);
    lemma_gate_values(Seq::new(7, |i: int| 0int), c);
}

/// Some values are inverse to those of a table with a constant added.
pub open spec fn inverse_to(tab: Seq<int>, inv: Seq<int>, alpha: int) -> bool {
    &&& inv.len() == tab.len()
    &&& forall|i: int|
        0 <= i < tab.len() ==> cong((tab[i] + alpha) * #[trigger] inv[i], 1)
}

pub proof fn lemma_inverse_to(tab: Seq<int>, alpha: int)
    requires
        all_invertible(tab, alpha),
    ensures
        inverse_to(tab, shifted_inverses(tab, alpha), alpha),
{
    let inv = shifted_inverses(tab, alpha);
    assert forall|i: int| 0 <= i < tab.len() implies cong((tab[i] + alpha) * #[trigger] inv[i], 1) by {
        assert(invertible(tab[i] + alpha));
        lemma_inverse_of(tab[i] + alpha);
    }
}

/// A sum of inverses weighted by how often they are read.
pub open spec fn read_sum(inv: Seq<int>, count: Seq<int>) -> int {
    sum_to(inv.len() as int, |i: int| inv[i] * count[i])
}

/// A defect that is zero does not count.
proof fn lemma_defect(a: int, b: int, e: int, rest: int)
    requires
        cong(a * b, 1),
    ensures
        cong((a * b - 1) * e + rest, rest),
{
    lemma_cong_ops(a * b, 1, 1, 1);
    lemma_cong_ops(a * b - 1, 0, e, e);
    assert(0 * e == 0);
    lemma_cong_ops((a * b - 1) * e, 0, rest, rest);
}

/// The expression for the right-hand side of a table adds up to the weighted inverses.
proof fn lemma_right_sum(
    tab: Seq<int>,
    inv: Seq<int>,
    count: Seq<int>,
    eq: Seq<int>,
    alpha: int,
    r: int,
)
    requires
        inverse_to(tab, inv, alpha),
        count.len() == tab.len(),
        eq.len() == tab.len(),
    ensures
        cong(
            whole_sum(
                logup_right(),
                seq![r],
                seq![shifted(tab, alpha), inv, count, eq],
                tab.len() as int,
            ),
            read_sum(inv, count) * r,
        ),
{
    let n = tab.len() as int;
    let tabs = seq![shifted(tab, alpha), inv, count, eq];
    let c = seq![r];
    let a = |j: int| row_value(logup_right(), c, tabs, j);
    let x = |i: int| inv[i] * count[i];
    let b = |j: int| r * x(j);
    assert forall|j: int| 0 <= j < n implies cong(#[trigger] a(j), b(j)) by {
        let v = row_at(tabs, j);
        lemma_gate_values(v, c);
        assert(v[0] == at(tabs[0], j));
        assert(v[1] == at(tabs[1], j));
        assert(v[2] == at(tabs[2], j));
        assert(v[3] == at(tabs[3], j));
        assert(cong((tab[j] + alpha) * inv[j], 1));
        lemma_defect(tab[j] + alpha, inv[j], eq[j], r * inv[j] * count[j]);
        let i = inv[j];
        let k = count[j];
        assert(r * i * k == r * (i * k)) by (nonlinear_arith);
    }
    lemma_sum_cong(n, a, b);
    lemma_sum_scale(n, r, x);
    let t = sum_to(n, x);
    assert(r * t == t * r) by (nonlinear_arith);
}

/// The right-hand side of a table is accepted for the sum of its weighted inverses, and
/// leaves the values of the tables.
pub proof fn lemma_right_accepted(
    tab: Seq<int>,
    inv: Seq<int>,
    count: Seq<int>,
    alpha: int,
    claim: int,
    least: int,
    full: Sent,
    s: Sent,
)
    requires
        0 <= least <= tab.len(),
        0 < tab.len() <= longest(),
        inverse_to(tab, inv, alpha),
        count.len() == tab.len(),
        cong(claim, read_sum(inv, count)),
        s.ch.len() >= 2 * log2_ceil(tab.len() as int) + 1,
        all_off(3, prove_right(tab, inv, count, alpha, s).1),
        extends(full, prove_right(tab, inv, count, alpha, s).0),
    ensures
        extends(full, s),
        ({
            let (end, point) = prove_right(tab, inv, count, alpha, s);
            let (st1, len) = read_len(rest_of(full, s), least);
            let nv = log2_ceil(len) as int;
            let (st3, req) = challenges(st1, nv);
            let (st4, r) = challenge(st3);
            let (p, y, st5) = verify_rounds(claim * r, nv, 3, st4);
            let (st6, v) = read_fs(st5, 3);
            &&& len == tab.len()
            &&& p == point
            &&& p.len() == log2_ceil(tab.len() as int)
            &&& v[0] == mle(shifted(tab, alpha), p)
            &&& v[1] == mle(inv, p)
            &&& v[2] == mle(count, p)
            &&& cong(y, (v[0] * v[1] - 1) * eq_prefix(req, p, len) + r * v[1] * v[2])
            &&& st6 == rest_of(full, end)
            &&& st6.ch == s.ch.skip(2 * nv + 1)
        }),
{
    reveal(prove_right);
    let len = tab.len() as int;
    let nv = log2_ceil(len) as int;
    lemma_log2_ceil(len);
    let s1 = send_u(s, len);
    let req = s1.ch.take(nv);
    let eq = eq_table(req).take(len);
    let s2 = drawn(s1, nv);
    let r = s2.ch[0];
    let s3 = drawn(s2, 1);
    let point = s3.ch.take(nv);
    let tabs = seq![shifted(tab, alpha), inv, count, eq];
    let g = logup_right();
    let c = seq![r];
    let s4 = send_rounds(s3, g, c, tabs, len, 3, nv);
    let vals = values_at(tabs, point).take(3);
    let end = send_fs(s4, vals);
    lemma_read_fs(full, s4, vals);
    assert(s2.ch.skip(1).take(nv).len() == nv);
    lemma_right_sum(tab, inv, count, eq, alpha, r);
    lemma_cong_ops(claim, read_sum(inv, count), r, r);
    lemma_gate_degrees();
    reveal_with_fuel(gate_fits, 6);
    lemma_vanishing(c);
    assert(same_len(tabs, len)) by {
        assert forall|t: int| 0 <= t < tabs.len() implies (#[trigger] tabs[t]).len() == len by {}
    }
    law_rounds(g, c, tabs, len, 3, nv, claim * r, full, s3);
    lemma_challenge(full, s2);
    lemma_challenges(full, s1, nv);
    lemma_read_len(full, s, len, least);
    lemma_gate_values(values_at(tabs, point), c);
    lemma_mle_eq_take(req, point, len);
    let w = values_at(tabs, point);
    assert(w[0] == mle(tabs[0], point));
    assert(w[1] == mle(tabs[1], point));
    assert(w[2] == mle(tabs[2], point));
    assert(w[3] == mle(tabs[3], point));
    assert(end.ch =~= s.ch.skip(2 * nv + 1));
}

/// The verifier can evaluate a table by itself.
pub open spec fn shape_of(shape: ShapeView, tab: Seq<int>, log: nat) -> bool {
    &&& tab.len() == pow2(log)
    &&& forall|p: Seq<int>| p.len() == log ==> #[trigger] shape_at(shape, p) == mle(tab, p)
}

/// A table is accepted that the verifier can evaluate by itself.
pub proof fn lemma_table_accepted(
    srs: Seq<int>,
    tab: Seq<int>,
    count: Seq<int>,
    alpha: int,
    beta: int,
    claim: int,
    log: nat,
    shape: ShapeView,
    full: Sent,
    s: Sent,
    a: Acc,
    v: VerAcc,
)
    requires
        log >= 1,
        shape_of(shape, tab, log),
        tab.len() <= longest(),
        count.len() == tab.len(),
        all_invertible(fingerprints(tab, beta), alpha),
        cong(claim, read_sum(shifted_inverses(fingerprints(tab, beta), alpha), count)),
        s.ch.len() >= 2 * log + 1,
        claims_match(srs, a, v),
        ({
            let f = fingerprints(tab, beta);
            let inv = shifted_inverses(f, alpha);
            let (end, point) = prove_right(f, inv, count, alpha, s);
            all_off(3, point) && extends(full, end)
        }),
    ensures
        extends(full, s),
        ({
            let f = fingerprints(tab, beta);
            let inv = shifted_inverses(f, alpha);
            let (end, point) = prove_right(f, inv, count, alpha, s);
            let (st, w) = verify_right(
                rest_of(full, s),
                alpha,
                beta,
                claim,
                log,
                shape,
                commit_of(srs, inv),
                commit_of(srs, count),
                v,
            );
            &&& st == rest_of(full, end)
            &&& st.ch == s.ch.skip((2 * log + 1) as int)
            &&& claims_match(srs, acc_push(acc_push(a, inv, point), count, point), w)
        }),
{
    reveal(verify_right);
    let f = fingerprints(tab, beta);
    let inv = shifted_inverses(f, alpha);
    lemma_pow2_step(log);
    lemma_log2_pow2(log);
    lemma_inverse_to(f, alpha);
    lemma_right_accepted(f, inv, count, alpha, claim, 0, full, s);
    let (end, p) = prove_right(f, inv, count, alpha, s);
    lemma_mle_shifted(f, alpha, p);
    lemma_mle_fingerprints(tab, beta, p);
    crate::poly::lemma_eq_total(p);
    assert(shape_at(shape, p) == mle(tab, p));
    assert(alpha * 1 == alpha);
    lemma_claims_push(srs, a, v, inv, p, mle(inv, p));
    let a1 = acc_push(a, inv, p);
    let v1 = ver_push(v, commit_of(srs, inv), p, mle(inv, p));
    lemma_claims_push(srs, a1, v1, count, p, mle(count, p));
}

/// What is read adds up to the table, weighted by how often each entry is read.
pub proof fn lemma_counts(idx: Seq<int>, n: int, v: Seq<int>)
    requires
        below(idx, n),
        v.len() == n,
    ensures
        sum_to(idx.len() as int, |k: int| v[idx[k]]) == read_sum(v, counts(idx, n)),
{
    let m = idx.len() as int;
    let c = counts(idx, n);
    let t = |j: int, k: int| v[j] * one_if(idx[k] == j);
    let a = |j: int| v[j] * c[j];
    let b = |j: int| sum_to(m, |k: int| t(j, k));
    assert forall|j: int| 0 <= j < n implies #[trigger] a(j) == b(j) by {
        let x = |k: int| one_if(idx[k] == j);
        lemma_sum_scale(m, v[j], x);
        lemma_sum_eq(m, |k: int| v[j] * x(k), |k: int| t(j, k));
    }
    lemma_sum_eq(n, a, b);
    lemma_sum_swap(n, m, t);
    let d = |k: int| sum_to(n, |j: int| t(j, k));
    let e = |k: int| v[idx[k]];
    assert forall|k: int| 0 <= k < m implies #[trigger] d(k) == e(k) by {
        assert(0 <= idx[k] < n);
        let f = |j: int| t(j, k);
        assert forall|j: int| 0 <= j < n && j != idx[k] implies #[trigger] f(j) == 0 by {
            assert(v[j] * 0 == 0);
        }
        lemma_sum_single(n, idx[k], f);
        assert(v[idx[k]] * 1 == v[idx[k]]);
    }
    lemma_sum_eq(m, d, e);
}

/// The inverses for what is read add up to those of the table.
pub proof fn lemma_reads_total(idx: Seq<int>, tab: Seq<int>, beta: int, alpha: int)
    requires
        below(idx, tab.len() as int),
    ensures
        total(shifted_inverses(affine(idx, reads(idx, tab), beta), alpha)) == read_sum(
            shifted_inverses(fingerprints(tab, beta), alpha),
            counts(idx, tab.len() as int),
        ),
{
    let n = tab.len() as int;
    let v = shifted_inverses(fingerprints(tab, beta), alpha);
    let w = shifted_inverses(affine(idx, reads(idx, tab), beta), alpha);
    lemma_counts(idx, n, v);
    let a = |i: int| w[i];
    let b = |k: int| v[idx[k]];
    assert forall|i: int| 0 <= i < idx.len() implies #[trigger] a(i) == b(i) by {
        assert(0 <= idx[i] < n);
        assert(affine(idx, reads(idx, tab), beta)[i] == fingerprints(tab, beta)[idx[i]]);
    }
    lemma_sum_eq(idx.len() as int, a, b);
}

/// A sum of inverses.
proof fn lemma_left_term(
    a: int,
    b: int,
    c: int,
    d: int,
    e: int,
    f: int,
    rho: int,
    rho2: int,
    q: int,
    rest: int,
)
    requires
        cong(a * b, 1),
        cong(c * d, 1),
        cong(e * f, 1),
    ensures
        cong(
            ((a * b - 1) + rho * (c * d - 1) + rho2 * (e * f - 1)) * q + rest,
            rest,
        ),
{
    lemma_cong_ops(a * b, 1, 1, 1);
    lemma_cong_ops(c * d, 1, 1, 1);
    lemma_cong_ops(e * f, 1, 1, 1);
    lemma_cong_ops(rho, rho, c * d - 1, 0);
    lemma_cong_ops(rho2, rho2, e * f - 1, 0);
    assert(rho * 0 == 0 && rho2 * 0 == 0);
    lemma_cong_ops(a * b - 1, 0, rho * (c * d - 1), 0);
    let t = (a * b - 1) + rho * (c * d - 1);
    lemma_cong_ops(t, 0, rho2 * (e * f - 1), 0);
    let u = t + rho2 * (e * f - 1);
    lemma_cong_ops(u, 0, q, q);
    assert(0 * q == 0);
    lemma_cong_ops(u * q, 0, rest, rest);
}

/// The sums of three lists of inverses, weighted.
pub open spec fn left_claim(ir: Seq<int>, ic: Seq<int>, ig: Seq<int>, rho: int) -> int {
    total(ir) + rho * total(ic) + rho * rho * total(ig)
}

proof fn lemma_left_sum(
    er: Seq<int>,
    ir: Seq<int>,
    ec: Seq<int>,
    ic: Seq<int>,
    eg: Seq<int>,
    ig: Seq<int>,
    eq: Seq<int>,
    alpha: int,
    rho: int,
    r: int,
)
    requires
        inverse_to(er, ir, alpha),
        inverse_to(ec, ic, alpha),
        inverse_to(eg, ig, alpha),
        ec.len() == er.len(),
        eg.len() == er.len(),
        eq.len() == er.len(),
    ensures
        cong(
            whole_sum(
                logup_combined(),
                seq![rho, rho * rho, r],
                seq![
                    shifted(er, alpha),
                    ir,
                    shifted(ec, alpha),
                    ic,
                    shifted(eg, alpha),
                    ig,
                    eq,
                ],
                er.len() as int,
            ),
            r * left_claim(ir, ic, ig, rho),
        ),
{
    let n = er.len() as int;
    let tabs = seq![
        shifted(er, alpha),
        ir,
        shifted(ec, alpha),
        ic,
        shifted(eg, alpha),
        ig,
        eq,
    ];
    let rho2 = rho * rho;
    let c = seq![rho, rho2, r];
    let a = |j: int| row_value(logup_combined(), c, tabs, j);
    let x = |i: int| ir[i];
    let y = |i: int| ic[i];
    let z = |i: int| ig[i];
    let y1 = |i: int| rho * y(i);
    let z1 = |i: int| rho2 * z(i);
    let xy = |i: int| x(i) + y1(i);
    let xyz = |i: int| xy(i) + z1(i);
    let b = |j: int| r * xyz(j);
    assert forall|j: int| 0 <= j < n implies cong(#[trigger] a(j), b(j)) by {
        let v = row_at(tabs, j);
        lemma_gate_values(v, c);
        assert(v[0] == at(tabs[0], j));
        assert(v[1] == at(tabs[1], j));
        assert(v[2] == at(tabs[2], j));
        assert(v[3] == at(tabs[3], j));
        assert(v[4] == at(tabs[4], j));
        assert(v[5] == at(tabs[5], j));
        assert(v[6] == at(tabs[6], j));
        assert(cong((er[j] + alpha) * ir[j], 1));
        assert(cong((ec[j] + alpha) * ic[j], 1));
        assert(cong((eg[j] + alpha) * ig[j], 1));
        lemma_left_term(
            er[j] + alpha,
            ir[j],
            ec[j] + alpha,
            ic[j],
            eg[j] + alpha,
            ig[j],
            rho,
            rho2,
            eq[j],
            r * (ir[j] + rho * ic[j] + rho2 * ig[j]),
        );
    }
    lemma_sum_cong(n, a, b);
    lemma_sum_scale(n, r, xyz);
    lemma_sum_scale(n, rho, y);
    lemma_sum_scale(n, rho2, z);
    lemma_sum_add(n, x, y1);
    lemma_sum_add(n, xy, z1);
}

/// The left-hand sides of three tables are accepted for the sums of their inverses.
pub proof fn lemma_left_accepted(
    er: Seq<int>,
    ir: Seq<int>,
    ec: Seq<int>,
    ic: Seq<int>,
    eg: Seq<int>,
    ig: Seq<int>,
    alpha: int,
    rho: int,
    full: Sent,
    s: Sent,
)
    requires
        0 < er.len() <= longest(),
        inverse_to(er, ir, alpha),
        inverse_to(ec, ic, alpha),
        inverse_to(eg, ig, alpha),
        ec.len() == er.len(),
        eg.len() == er.len(),
        s.ch.len() >= 2 * log2_ceil(er.len() as int) + 1,
        all_off(3, prove_left(er, ir, ec, ic, eg, ig, alpha, rho, s).1),
        extends(full, prove_left(er, ir, ec, ic, eg, ig, alpha, rho, s).0),
    ensures
        extends(full, s),
        ({
            let (end, point) = prove_left(er, ir, ec, ic, eg, ig, alpha, rho, s);
            let (st6, len) = read_len(rest_of(full, s), 0);
            let nv = log2_ceil(len) as int;
            let (st7, req) = challenges(st6, nv);
            let (st8, r) = challenge(st7);
            let rho2 = rho * rho;
            let (p, y, st9) = verify_rounds(r * left_claim(ir, ic, ig, rho), nv, 3, st8);
            let (st10, v) = read_fs(st9, 6);
            &&& len == er.len()
            &&& p == point
            &&& p.len() == nv
            &&& v[0] == mle(shifted(er, alpha), p)
            &&& v[1] == mle(ir, p)
            &&& v[2] == mle(shifted(ec, alpha), p)
            &&& v[3] == mle(ic, p)
            &&& v[4] == mle(shifted(eg, alpha), p)
            &&& v[5] == mle(ig, p)
            &&& cong(
                y,
                ((v[0] * v[1] - 1) + rho * (v[2] * v[3] - 1) + rho2 * (v[4] * v[5] - 1))
                    * eq_prefix(req, p, len) + r * (v[1] + rho * v[3] + rho2 * v[5]),
            )
            &&& st10 == rest_of(full, end)
            &&& st10.ch == s.ch.skip(2 * nv + 1)
        }),
{
    reveal(prove_left);
    let len = er.len() as int;
    let nv = log2_ceil(len) as int;
    lemma_log2_ceil(len);
    let s1 = send_u(s, len);
    let req = s1.ch.take(nv);
    let eq = eq_table(req).take(len);
    let s2 = drawn(s1, nv);
    let r = s2.ch[0];
    let s3 = drawn(s2, 1);
    let point = s3.ch.take(nv);
    let tabs = seq![
        shifted(er, alpha),
        ir,
        shifted(ec, alpha),
        ic,
        shifted(eg, alpha),
        ig,
        eq,
    ];
    let g = logup_combined();
    let c = seq![rho, rho * rho, r];
    let s4 = send_rounds(s3, g, c, tabs, len, 3, nv);
    let vals = values_at(tabs, point).take(6);
    let end = send_fs(s4, vals);
    lemma_read_fs(full, s4, vals);
    lemma_left_sum(er, ir, ec, ic, eg, ig, eq, alpha, rho, r);
    lemma_gate_degrees();
    reveal_with_fuel(gate_fits, 9);
    lemma_vanishing(c);
    assert(same_len(tabs, len)) by {
        assert forall|t: int| 0 <= t < tabs.len() implies (#[trigger] tabs[t]).len() == len by {}
    }
    law_rounds(g, c, tabs, len, 3, nv, r * left_claim(ir, ic, ig, rho), full, s3);
    lemma_challenge(full, s2);
    lemma_challenges(full, s1, nv);
    lemma_read_len(full, s, len, 0);
    let w = values_at(tabs, point);
    lemma_gate_values(w, c);
    lemma_mle_eq_take(req, point, len);
    assert(w[0] == mle(tabs[0], point));
    assert(w[1] == mle(tabs[1], point));
    assert(w[2] == mle(tabs[2], point));
    assert(w[3] == mle(tabs[3], point));
    assert(w[4] == mle(tabs[4], point));
    assert(w[5] == mle(tabs[5], point));
    assert(w[6] == mle(tabs[6], point));
    assert(end.ch =~= s.ch.skip(2 * nv + 1));
}

/// A group counts how often each of its indices occurs.
pub open spec fn group_counts(g: GroupView) -> bool {
    &&& g.count_row == counts(g.row, pow2(g.log_row) as int)
    &&& g.count_col == counts(g.col, pow2(g.log_col) as int)
    &&& g.count_pow == counts(g.pow, pow2(g.log_pow) as int)
}

/// The vectors and tables of a group are not too long to be sent.
pub open spec fn group_short(g: GroupView) -> bool {
    &&& g.row.len() <= longest()
    &&& pow2(g.log_row) <= longest()
    &&& pow2(g.log_col) <= longest()
    &&& pow2(g.log_pow) <= longest()
}

/// None of the coordinates of the points from the `k`-th on is a node.
pub open spec fn points_off(a: Acc, k: int, d: int) -> bool {
    forall|i: int| k <= i < a.points.len() ==> all_off(d, #[trigger] a.points[i])
}

/// The reads of a group from tables that the verifier can evaluate are accepted.
#[verifier::rlimit(60)]
pub proof fn lemma_memory_accepted(
    srs: Seq<int>,
    g: GroupView,
    tr: Seq<int>,
    tc: Seq<int>,
    tg: Seq<int>,
    hr: ShapeView,
    hc: ShapeView,
    hg: ShapeView,
    full: Sent,
    s: Sent,
    a: Acc,
    v: VerAcc,
)
    requires
        group_ok(g),
        group_counts(g),
        group_short(g),
        shape_of(hr, tr, g.log_row),
        shape_of(hc, tc, g.log_col),
        shape_of(hg, tg, g.log_pow),
        memory_ready(g, tr, tc, tg, s.ch),
        claims_match(srs, a, v),
        points_off(prove_memory(srs, g, tr, tc, tg, s, a).1, a.points.len() as int, 3),
        extends(full, prove_memory(srs, g, tr, tc, tg, s, a).0),
    ensures
        extends(full, s),
        ({
            let (end, b) = prove_memory(srs, g, tr, tc, tg, s, a);
            let (st, w) = verify_memory(
                group_commits(srs, g),
                commit_of(srs, reads(g.row, tr)),
                commit_of(srs, reads(g.col, tc)),
                commit_of(srs, reads(g.pow, tg)),
                hr,
                hc,
                hg,
                rest_of(full, s),
                v,
            );
            &&& st == rest_of(full, end)
            &&& st.ch == s.ch.skip(memory_draws(g))
            &&& claims_match(srs, b, w)
        }),
{
    reveal(prove_memory);
    reveal(verify_memory);
    let n = a.points.len() as int;
    let len = g.row.len() as int;
    let nv = log2_ceil(len) as int;
    let e_row = reads(g.row, tr);
    let e_col = reads(g.col, tc);
    let e_pow = reads(g.pow, tg);
    let br = s.ch[0];
    let bc = s.ch[1];
    let bp = s.ch[2];
    let alpha = s.ch[3];
    let rho = s.ch[4];
    let s0 = drawn(s, 5);
    let er = affine(g.row, e_row, br);
    let ec = affine(g.col, e_col, bc);
    let eg = affine(g.pow, e_pow, bp);
    let ir = shifted_inverses(er, alpha);
    let ic = shifted_inverses(ec, alpha);
    let ig = shifted_inverses(eg, alpha);
    let s1 = send_commit(s0, srs, ir);
    let s2 = send_commit(s1, srs, ic);
    let s3 = send_commit(s2, srs, ig);
    let sums = seq![total(ir), total(ic), total(ig)];
    let s4 = send_fs(s3, sums);
    let (s5, pl) = prove_left(er, ir, ec, ic, eg, ig, alpha, rho, s4);
    let vals = seq![
        mle(g.row, pl),
        mle(g.col, pl),
        mle(g.pow, pl),
        mle(e_row, pl),
        mle(e_col, pl),
        mle(e_pow, pl),
    ];
    let s6 = send_fs(s5, vals);
    let a1 = acc_push(acc_push(acc_push(a, g.row, pl), g.col, pl), g.pow, pl);
    let a2 = acc_push(acc_push(acc_push(a1, e_row, pl), e_col, pl), e_pow, pl);
    let a3 = acc_push(acc_push(acc_push(a2, ir, pl), ic, pl), ig, pl);
    let fr = fingerprints(tr, br);
    let fc = fingerprints(tc, bc);
    let fg = fingerprints(tg, bp);
    let vr = shifted_inverses(fr, alpha);
    let vc = shifted_inverses(fc, alpha);
    let vg = shifted_inverses(fg, alpha);
    let s7 = send_commit(s6, srs, vr);
    let s8 = send_commit(s7, srs, vc);
    let s9 = send_commit(s8, srs, vg);
    let (s10, pr) = prove_right(fr, vr, g.count_row, alpha, s9);
    let (s11, pc) = prove_right(fc, vc, g.count_col, alpha, s10);
    let (s12, pg) = prove_right(fg, vg, g.count_pow, alpha, s11);
    let a4 = acc_push(acc_push(a3, vr, pr), g.count_row, pr);
    let a5 = acc_push(acc_push(a4, vc, pc), g.count_col, pc);
    let a6 = acc_push(acc_push(a5, vg, pg), g.count_pow, pg);
    assert(prove_memory(srs, g, tr, tc, tg, s, a) == (s12, a6));
    assert(all_off(3, pl) && all_off(3, pr) && all_off(3, pc) && all_off(3, pg)) by {
        assert(a6.points[n] == pl);
        assert(a6.points[n + 9] == pr);
        assert(a6.points[n + 11] == pc);
        assert(a6.points[n + 13] == pg);
    }
    lemma_log2_pow2(g.log_row);
    lemma_log2_pow2(g.log_col);
    lemma_log2_pow2(g.log_pow);
    assert(s5.ch == s4.ch.skip(2 * nv + 1)) by {
        reveal(prove_left);
        assert(s5.ch =~= s4.ch.skip(2 * nv + 1));
    }
    lemma_right_draws(fr, vr, g.count_row, alpha, s9);
    lemma_right_draws(fc, vc, g.count_col, alpha, s10);
    lemma_right_draws(fg, vg, g.count_pow, alpha, s11);
    lemma_right_prefix(fg, vg, g.count_pow, alpha, full, s11);
    lemma_right_prefix(fc, vc, g.count_col, alpha, full, s10);
    lemma_right_prefix(fr, vr, g.count_row, alpha, full, s9);
    lemma_read_points(full, s8, commit_of(srs, vg));
    lemma_read_points(full, s7, commit_of(srs, vc));
    lemma_read_points(full, s6, commit_of(srs, vr));
    lemma_read_fs(full, s5, vals);
    lemma_inverse_to(er, alpha);
    lemma_inverse_to(ec, alpha);
    lemma_inverse_to(eg, alpha);
    lemma_left_accepted(er, ir, ec, ic, eg, ig, alpha, rho, full, s4);
    lemma_read_fs(full, s3, sums);
    lemma_read_points(full, s2, commit_of(srs, ig));
    lemma_read_points(full, s1, commit_of(srs, ic));
    lemma_read_points(full, s0, commit_of(srs, ir));
    lemma_challenges(full, s, 5);
    lemma_mle_shifted(er, alpha, pl);
    lemma_mle_shifted(ec, alpha, pl);
    lemma_mle_shifted(eg, alpha, pl);
    lemma_mle_affine(g.row, e_row, br, pl);
    lemma_mle_affine(g.col, e_col, bc, pl);
    lemma_mle_affine(g.pow, e_pow, bp, pl);
    let gc = group_commits(srs, g);
    let ce_row = commit_of(srs, e_row);
    let ce_col = commit_of(srs, e_col);
    let ce_pow = commit_of(srs, e_pow);
    let v1 = ver_push(
        ver_push(ver_push(v, gc.row, pl, vals[0]), gc.col, pl, vals[1]),
        gc.pow,
        pl,
        vals[2],
    );
    let v2 = ver_push(
        ver_push(ver_push(v1, ce_row, pl, vals[3]), ce_col, pl, vals[4]),
        ce_pow,
        pl,
        vals[5],
    );
    let v3 = ver_push(
        ver_push(
            ver_push(v2, commit_of(srs, ir), pl, mle(ir, pl)),
            commit_of(srs, ic),
            pl,
            mle(ic, pl),
        ),
        commit_of(srs, ig),
        pl,
        mle(ig, pl),
    );
    assert(claims_match(srs, a3, v3)) by {
        lemma_claims_push3(srs, a, v, g.row, g.col, g.pow, pl);
        lemma_claims_push3(srs, a1, v1, e_row, e_col, e_pow, pl);
        lemma_claims_push3(srs, a2, v2, ir, ic, ig, pl);
    }
    lemma_reads_total(g.row, tr, br, alpha);
    lemma_reads_total(g.col, tc, bc, alpha);
    lemma_reads_total(g.pow, tg, bp, alpha);
    lemma_table_accepted(srs, tr, g.count_row, alpha, br, total(ir), g.log_row, hr, full, s9, a3, v3);
    let (st19, v4) = verify_right(
        rest_of(full, s9),
        alpha,
        br,
        total(ir),
        g.log_row,
        hr,
        commit_of(srs, vr),
        gc.count_row,
        v3,
    );
    lemma_table_accepted(srs, tc, g.count_col, alpha, bc, total(ic), g.log_col, hc, full, s10, a4, v4);
    let (st20, v5) = verify_right(
        rest_of(full, s10),
        alpha,
        bc,
        total(ic),
        g.log_col,
        hc,
        commit_of(srs, vc),
        gc.count_col,
        v4,
    );
    lemma_table_accepted(srs, tg, g.count_pow, alpha, bp, total(ig), g.log_pow, hg, full, s11, a5, v5);
    assert(s12.ch =~= s.ch.skip(memory_draws(g)));
}

/// The challenges that are left after the right-hand side of a table.
pub proof fn lemma_right_draws(
    tab: Seq<int>,
    inv: Seq<int>,
    count: Seq<int>,
    alpha: int,
    s: Sent,
)
    requires
        s.ch.len() >= 2 * log2_ceil(tab.len() as int) + 1,
    ensures
        prove_right(tab, inv, count, alpha, s).0.ch == s.ch.skip(
            (2 * log2_ceil(tab.len() as int) + 1) as int,
        ),
{
    reveal(prove_right);
    let end = prove_right(tab, inv, count, alpha, s).0;
    let nv = log2_ceil(tab.len() as int) as int;
    assert(end.ch =~= s.ch.skip(2 * nv + 1));
}

/// The number of variables of a table of two to the power of `log` entries.
pub proof fn lemma_log2_pow2(log: nat)
    requires
        log >= 1,
    ensures
        log2_ceil(pow2(log) as int) == log,
{
    lemma_pow2_step((log - 1) as nat);
    lemma_log2_unique(pow2(log) as int, log);
}

/// What was sent before the right-hand side of a table is the start of what was sent after
/// it.
pub proof fn lemma_right_prefix(
    tab: Seq<int>,
    inv: Seq<int>,
    count: Seq<int>,
    alpha: int,
    full: Sent,
    s: Sent,
)
    requires
        extends(full, prove_right(tab, inv, count, alpha, s).0),
    ensures
        extends(full, s),
{
    reveal(prove_right);
    let end = prove_right(tab, inv, count, alpha, s).0;
    assert(s.u =~= end.u.take(s.u.len() as int));
    assert(s.f =~= end.f.take(s.f.len() as int));
    assert(s.g =~= end.g.take(s.g.len() as int));
    crate::replay::lemma_extends(full, s, end);
}

/// Three more right claims, at one point.
proof fn lemma_claims_push3(
    srs: Seq<int>,
    a: Acc,
    v: VerAcc,
    f: Seq<int>,
    g: Seq<int>,
    h: Seq<int>,
    p: Seq<int>,
)
    requires
        claims_match(srs, a, v),
        0 < f.len(),
        g.len() == f.len(),
        h.len() == f.len(),
        log2_ceil(f.len() as int) <= p.len(),
    ensures
        claims_match(
            srs,
            acc_push(acc_push(acc_push(a, f, p), g, p), h, p),
            ver_push(
                ver_push(
                    ver_push(v, commit_of(srs, f), p, mle(f, p)),
                    commit_of(srs, g),
                    p,
                    mle(g, p),
                ),
                commit_of(srs, h),
                p,
                mle(h, p),
            ),
        ),
{
    lemma_claims_push(srs, a, v, f, p, mle(f, p));
    let a1 = acc_push(a, f, p);
    let v1 = ver_push(v, commit_of(srs, f), p, mle(f, p));
    lemma_claims_push(srs, a1, v1, g, p, mle(g, p));
    let a2 = acc_push(a1, g, p);
    let v2 = ver_push(v1, commit_of(srs, g), p, mle(g, p));
    lemma_claims_push(srs, a2, v2, h, p, mle(h, p));
}

} // verus!
