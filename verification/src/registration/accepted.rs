//! Certificates for vectors that keep the rules are accepted.
use vstd::prelude::*;
use vstd::arithmetic::power::*;
use vstd::arithmetic::power2::*;
use crate::channel::{State, challenges};
use crate::claims::{claims_match, lemma_batch_accepted, lemma_claims_push};
use crate::field::{cong, lemma_cong_ops};
use crate::kzg::{commit_of, num_chunks, srs_of, ver_params_of};
use crate::openings::lemma_num_chunks;
use crate::poly::{at, eq_at, lemma_eq_total, lemma_mle_pad, min, mle};
use crate::replay::{
    all_off, extends, lemma_challenge, lemma_challenges, lemma_extends_self, lemma_read_fs, rest_of,
    row_at,
};
use crate::shapes::{lemma_mle_ones, lemma_mle_places, places};
use crate::sparse::Acc;
use crate::sparse_laws::lemma_batch_extends;
use crate::sparse_verifier::VerAcc;
use crate::speaker::{Sent, drawn};
use crate::sumcheck::{gate_value, lemma_log2_ceil, log2_ceil, same_len, values_at};
use crate::sums::{
    lemma_pow2_mono, lemma_pow2_step, lemma_sum_add, lemma_sum_eq, lemma_sum_extend,
    lemma_sum_scale, lemma_sum_split, lemma_sum_swap, lemma_sum_zero, sum_to,
};
use super::args::{layer_draws, send_eq_sum, send_fractions, verify_fractions};
use super::args_laws::{
    law_eq_sum, law_fractions, layers_off, lemma_eq_sum_extends, lemma_fractions_extends,
};
use super::certificate::{
    CheckState, ProofState, all_units, blocks_draws, boundary_of, certificate_of, checks_draws,
    claimed_at, claimed_boundaries, column_of, columns_of, committed_values, denominators,
    equalities_draws, equality_draws, fingerprint, lemma_tabs_of, num_boundaries, num_committed,
    numerators, opened_at, opened_boundaries, prove_block, prove_blocks, prove_check, prove_checks,
    prove_equalities, prove_equality, prove_rules, public_at, public_column, read_values, settled,
    tabs_of, trimmed, trimmed_ver, vectors_fit, verify_block, verify_blocks, verify_check,
    verify_checks, verify_equalities, verify_equality, verify_rules,
};
use super::relation::{
    BlockView, CheckView, EqualityView, LinView, NUM_CHALLENGES, Tab, equalities_of, lemma_place,
    lin_covered, lin_value, place, zero_checks_of,
};
use super::wellformed::{
    block_wf, blocks_wf, check_wf, equality_wf, lemma_checks_wf, lemma_equalities_wf, lin_wf,
    tab_wf, tabs_wf,
};
use super::witness::{ProfileView, log_srs_of, profile_fits, tab_log, tab_ok};

verus! {

/// The value that the verifier works out for a public vector is that of the polynomial
/// with the values of the vector at the vertices.
pub proof fn law_public(t: Tab, point: Seq<int>)
    requires
        !t.committed(),
        t matches Tab::Ind(lo, hi) ==> lo <= hi,
    ensures
        mle(public_column(t, pow2(point.len()) as int), point) == public_at(t, point),
{
    let log = point.len();
    let len = pow2(log) as int;
    let c = public_column(t, len);
    match t {
        Tab::One => {
            lemma_mle_ones(c, point);
            lemma_eq_total(point);
        },
        Tab::Identity => {
            lemma_mle_places(point);
            assert(c =~= places(pow2(log)));
        },
        Tab::Ind(lo, hi) => {
            let a = min(lo as int, len);
            let b = min(hi as int, len);
            let x = |i: int| c[i] * eq_at(point, i);
            let e = |i: int| eq_at(point, i);
            lemma_sum_split(a, b - a, e);
            let e1 = |i: int| e(a + i);
            assert forall|i: int| 0 <= i < a implies #[trigger] x(i) == 0 by {
                assert(0 * eq_at(point, i) == 0);
            }
            lemma_sum_zero(a, x);
            lemma_sum_split(a, b - a, x);
            let x1 = |i: int| x(a + i);
            assert forall|i: int| 0 <= i < b - a implies #[trigger] x1(i) == e1(i) by {
                assert(1 * eq_at(point, a + i) == eq_at(point, a + i));
            }
            lemma_sum_eq(b - a, x1, e1);
            assert forall|i: int| b <= i < len implies #[trigger] x(i) == 0 by {
                assert(0 * eq_at(point, i) == 0);
            }
            lemma_sum_extend(b, len, x);
        },
        _ => {},
    }
}

/// The value of a vector at a point, as the rules take it: that of the vector if it is
/// committed to, and one that the verifier can work out if not.
pub proof fn lemma_column_value(
    f: spec_fn(Tab) -> Seq<int>,
    p: ProfileView,
    log: nat,
    t: Tab,
    point: Seq<int>,
)
    requires
        vectors_fit(f, p),
        tab_wf(p, log as int, t),
        point.len() == log,
    ensures
        t.committed() ==> mle(column_of(f, t, pow2(log) as int), point) == mle(f(t), point),
        !t.committed() ==> mle(column_of(f, t, pow2(log) as int), point) == public_at(t, point),
        column_of(f, t, pow2(log) as int).len() == pow2(log),
{
    let len = pow2(log) as int;
    let c = column_of(f, t, len);
    if t.committed() {
        assert(f(t).len() <= pow2(log));
        assert forall|i: int| 0 <= i < c.len() implies #[trigger] c[i] == at(f(t), i) by {}
        lemma_mle_pad(f(t), c, point);
    } else {
        law_public(t, point);
    }
}

/// The commitments of a verifier are to the vectors.
pub open spec fn committed_to(
    srs: Seq<int>,
    f: spec_fn(Tab) -> Seq<int>,
    g: spec_fn(Tab) -> Seq<int>,
) -> bool {
    forall|t: Tab| t.committed() && tab_ok(t) ==> #[trigger] g(t) == commit_of(srs, f(t))
}

/// A vector as long as its variables allow has no more variables.
proof fn lemma_fits_point(f: spec_fn(Tab) -> Seq<int>, p: ProfileView, log: nat, t: Tab)
    requires
        vectors_fit(f, p),
        tab_wf(p, log as int, t),
        t.committed(),
        log >= 1,
    ensures
        0 < f(t).len(),
        log2_ceil(f(t).len() as int) <= log,
{
    let n = f(t).len() as int;
    lemma_log2_ceil(n);
    assert(0 < f(t).len() <= pow2(log));
    if log2_ceil(n) > log {
        lemma_pow2_mono(log, (log2_ceil(n) - 1) as nat);
    }
}

/// The values of the vectors of a zero check are right claims, or what they should be.
proof fn lemma_settled(
    srs: Seq<int>,
    f: spec_fn(Tab) -> Seq<int>,
    g: spec_fn(Tab) -> Seq<int>,
    p: ProfileView,
    log: nat,
    tabs: Seq<Tab>,
    point: Seq<int>,
    a: Acc,
    v: CheckState,
    n: int,
)
    requires
        vectors_fit(f, p),
        committed_to(srs, f, g),
        tabs_wf(p, log as int, tabs),
        point.len() == log,
        log >= 1,
        0 <= n <= tabs.len(),
        claims_match(srs, a, v.acc),
        v.st.ok,
    ensures
        ({
            let vals = values_at(columns_of(f, tabs, pow2(log) as int), point);
            let w = settled(v, g, tabs, point, vals, n);
            &&& w.st == v.st
            &&& claims_match(srs, opened_at(a, f, tabs, point, n), w.acc)
        }),
    decreases n,
{
    if n > 0 {
        lemma_settled(srs, f, g, p, log, tabs, point, a, v, n - 1);
        let len = pow2(log) as int;
        let cols = columns_of(f, tabs, len);
        let vals = values_at(cols, point);
        let t = tabs[n - 1];
        assert(tab_wf(p, log as int, t));
        lemma_column_value(f, p, log, t, point);
        assert(cols[n - 1] == column_of(f, t, len));
        assert(vals[n - 1] == mle(cols[n - 1], point));
        let w = settled(v, g, tabs, point, vals, n - 1);
        if t.committed() {
            lemma_fits_point(f, p, log, t);
            assert(g(t) == commit_of(srs, f(t)));
            lemma_claims_push(
                srs,
                opened_at(a, f, tabs, point, n - 1),
                w.acc,
                f(t),
                point,
                vals[n - 1],
            );
        }
    }
}

/// The expression of a zero check is zero at every place.
pub open spec fn check_holds(
    f: spec_fn(Tab) -> Seq<int>,
    x: CheckView,
    chals: Seq<int>,
) -> bool {
    forall|j: int|
        0 <= j < pow2(x.log_len as nat) ==> cong(
            gate_value(
                x.gate,
                #[trigger] row_at(columns_of(f, x.tables, pow2(x.log_len as nat) as int), j),
                chals,
            ),
            0,
        )
}

/// A zero check that holds is accepted.
proof fn lemma_check(
    srs: Seq<int>,
    f: spec_fn(Tab) -> Seq<int>,
    g: spec_fn(Tab) -> Seq<int>,
    p: ProfileView,
    x: CheckView,
    chals: Seq<int>,
    st: ProofState,
    v: CheckState,
    full: Sent,
)
    requires
        vectors_fit(f, p),
        committed_to(srs, f, g),
        check_wf(p, x),
        chals.len() == NUM_CHALLENGES,
        check_holds(f, x, chals),
        claims_match(srs, st.acc, v.acc),
        v.st == rest_of(full, st.s),
        st.s.ch.len() >= 2 * x.log_len,
        all_off(x.degree, st.s.ch.subrange(x.log_len, 2 * x.log_len)),
        extends(full, prove_check(f, x, chals, st).s),
    ensures
        extends(full, st.s),
        ({
            let st1 = prove_check(f, x, chals, st);
            let v1 = verify_check(g, x, chals, v);
            &&& v1.st == rest_of(full, st1.s)
            &&& claims_match(srs, st1.acc, v1.acc)
            &&& st1.s.ch == st.s.ch.skip(2 * x.log_len)
            &&& st1.ok == st.ok
        }),
{
    reveal(prove_check);
    reveal(verify_check);
    let nv = x.log_len;
    let len = pow2(nv as nat) as int;
    let eq_point = st.s.ch.take(nv);
    let s0 = drawn(st.s, nv);
    let cols = columns_of(f, x.tables, len);
    let (s1, point) = send_eq_sum(s0, eq_point, cols, x.degree, x.gate, chals);
    assert(point == st.s.ch.subrange(nv, 2 * nv)) by {
        reveal(send_eq_sum);
        assert(point =~= st.s.ch.subrange(nv, 2 * nv));
    }
    assert(same_len(cols, len)) by {
        assert forall|t: int| 0 <= t < cols.len() implies (#[trigger] cols[t]).len() == len by {
            assert(tab_wf(p, nv, x.tables[t]));
            lemma_column_value(f, p, nv as nat, x.tables[t], point);
        }
    }
    let a = |j: int| gate_value(x.gate, row_at(cols, j), chals) * eq_at(eq_point, j);
    let b = |j: int| 0int;
    assert forall|j: int| 0 <= j < len implies cong(#[trigger] a(j), b(j)) by {
        let y = gate_value(x.gate, row_at(cols, j), chals);
        let e = eq_at(eq_point, j);
        assert(cong(y, 0));
        lemma_cong_ops(y, 0, e, e);
        assert(0 * e == 0);
    }
    crate::interpolation::lemma_sum_cong(len, a, b);
    lemma_sum_zero(len, b);
    law_eq_sum(eq_point, cols, x.degree, x.gate, chals, 0, full, s0);
    lemma_challenges(full, st.s, nv);
    lemma_settled(
        srs,
        f,
        g,
        p,
        nv as nat,
        x.tables,
        point,
        st.acc,
        CheckState { st: rest_of(full, s1), ..v },
        x.tables.len() as int,
    );
    assert(s1.ch =~= st.s.ch.skip(2 * nv));
}

proof fn lemma_check_extends(
    f: spec_fn(Tab) -> Seq<int>,
    x: CheckView,
    chals: Seq<int>,
    st: ProofState,
    full: Sent,
)
    requires
        extends(full, prove_check(f, x, chals, st).s),
    ensures
        extends(full, st.s),
{
    reveal(prove_check);
    let nv = x.log_len;
    lemma_eq_sum_extends(
        drawn(st.s, nv),
        st.s.ch.take(nv),
        columns_of(f, x.tables, pow2(nv as nat) as int),
        x.degree,
        x.gate,
        chals,
        full,
    );
}

/// None of the challenges of the rounds of the first `n` zero checks is a node.
pub open spec fn checks_off(xs: Seq<CheckView>, ch: Seq<int>, n: int) -> bool {
    forall|i: int|
        0 <= i < n ==> {
            let o = checks_draws(xs, i);
            let nv = (#[trigger] xs[i]).log_len;
            all_off(xs[i].degree, ch.subrange(o + nv, o + 2 * nv))
        }
}

/// The first `n` zero checks are accepted.
proof fn lemma_checks(
    srs: Seq<int>,
    f: spec_fn(Tab) -> Seq<int>,
    g: spec_fn(Tab) -> Seq<int>,
    p: ProfileView,
    xs: Seq<CheckView>,
    chals: Seq<int>,
    st: ProofState,
    v: CheckState,
    n: int,
    full: Sent,
)
    requires
        vectors_fit(f, p),
        committed_to(srs, f, g),
        0 <= n <= xs.len(),
        forall|i: int| 0 <= i < xs.len() ==> check_wf(p, #[trigger] xs[i]),
        chals.len() == NUM_CHALLENGES,
        forall|i: int| 0 <= i < xs.len() ==> check_holds(f, #[trigger] xs[i], chals),
        claims_match(srs, st.acc, v.acc),
        v.st == rest_of(full, st.s),
        st.s.ch.len() >= checks_draws(xs, n),
        checks_off(xs, st.s.ch, n),
        extends(full, prove_checks(f, xs, chals, st, n).s),
    ensures
        extends(full, st.s),
        checks_draws(xs, n) >= 0,
        ({
            let st1 = prove_checks(f, xs, chals, st, n);
            let v1 = verify_checks(g, xs, chals, v, n);
            &&& v1.st == rest_of(full, st1.s)
            &&& claims_match(srs, st1.acc, v1.acc)
            &&& st1.s.ch == st.s.ch.skip(checks_draws(xs, n))
            &&& st1.ok == st.ok
        }),
    decreases n,
{
    if n > 0 {
        let x = xs[n - 1];
        assert(check_wf(p, x));
        assert(check_holds(f, xs[n - 1], chals));
        let before = prove_checks(f, xs, chals, st, n - 1);
        lemma_check_extends(f, x, chals, before, full);
        assert(checks_off(xs, st.s.ch, n - 1));
        lemma_checks(srs, f, g, p, xs, chals, st, v, n - 1, full);
        let o = checks_draws(xs, n - 1);
        let nv = x.log_len;
        assert(before.s.ch.subrange(nv, 2 * nv) =~= st.s.ch.subrange(o + nv, o + 2 * nv));
        assert(all_off(xs[n - 1].degree, st.s.ch.subrange(o + nv, o + 2 * nv)));
        let vb = verify_checks(g, xs, chals, v, n - 1);
        lemma_check(srs, f, g, p, x, chals, before, vb, full);
        assert(st.s.ch.skip(o).skip(2 * nv) =~= st.s.ch.skip(o + 2 * nv));
    } else {
        assert(st.s.ch.skip(0) =~= st.s.ch);
    }
}

/// The value at a point of an expression, place by place, is the expression of the values.
proof fn lemma_mle_lin(
    f: spec_fn(Tab) -> Seq<int>,
    l: LinView,
    log: nat,
    point: Seq<int>,
    v: Seq<int>,
)
    requires
        point.len() == log,
        v.len() == pow2(log),
        forall|x: int|
            0 <= x < v.len() ==> #[trigger] v[x] == lin_value(
                l,
                |t: Tab| column_of(f, t, pow2(log) as int)[x],
            ),
        forall|k: int|
            0 <= k < l.terms.len() ==> column_of(
                f,
                (#[trigger] l.terms[k]).1,
                pow2(log) as int,
            ).len() == pow2(log),
    ensures
        mle(v, point) == lin_value(l, |t: Tab| mle(column_of(f, t, pow2(log) as int), point)),
{
    let len = pow2(log) as int;
    let n = l.terms.len() as int;
    let e = |x: int| eq_at(point, x);
    let t = |x: int, k: int|
        (l.terms[k].0 * column_of(f, l.terms[k].1, len)[x]) * eq_at(point, x);
    let ce = |x: int| l.constant * e(x);
    let st = |x: int| sum_to(n, |k: int| t(x, k));
    let both = |x: int| ce(x) + st(x);
    let lhs = |i: int| v[i] * eq_at(point, i);
    assert forall|x: int| 0 <= x < len implies #[trigger] lhs(x) == both(x) by {
        let at_x = |u: Tab| column_of(f, u, len)[x];
        assert(v[x] == lin_value(l, |u: Tab| column_of(f, u, pow2(log) as int)[x]));
        let terms = |k: int| l.terms[k].0 * at_x(l.terms[k].1);
        lemma_sum_eq(
            n,
            |k: int|
                l.terms[k].0 * (|u: Tab| column_of(f, u, pow2(log) as int)[x])(l.terms[k].1),
            terms,
        );
        let q = e(x);
        lemma_sum_scale(n, q, terms);
        let a = |k: int| q * terms(k);
        let b = |k: int| t(x, k);
        assert forall|k: int| 0 <= k < n implies #[trigger] a(k) == b(k) by {
            let w = terms(k);
            assert(q * w == w * q) by (nonlinear_arith);
        }
        lemma_sum_eq(n, a, b);
        let c = l.constant;
        let s = sum_to(n, terms);
        assert((c + s) * q == c * q + q * s) by (nonlinear_arith);
    }
    lemma_sum_eq(len, lhs, both);
    lemma_sum_add(len, ce, st);
    lemma_sum_scale(len, l.constant, e);
    lemma_eq_total(point);
    let c = l.constant;
    assert(c * 1 == c);
    lemma_sum_swap(len, n, t);
    let m = |u: Tab| mle(column_of(f, u, len), point);
    let r0 = |k: int| sum_to(len, |x: int| t(x, k));
    let r1 = |k: int| l.terms[k].0 * m(l.terms[k].1);
    assert forall|k: int| 0 <= k < n implies #[trigger] r0(k) == r1(k) by {
        let col = column_of(f, l.terms[k].1, len);
        assert(column_of(f, l.terms[k].1, pow2(log) as int).len() == pow2(log));
        let w = l.terms[k].0;
        let y = |i: int| col[i] * eq_at(point, i);
        lemma_sum_scale(len, w, y);
        let a = |x: int| t(x, k);
        let b = |i: int| w * y(i);
        assert forall|x: int| 0 <= x < len implies #[trigger] a(x) == b(x) by {
            let u = col[x];
            let q = eq_at(point, x);
            assert((w * u) * q == w * (u * q)) by (nonlinear_arith);
        }
        lemma_sum_eq(len, a, b);
    }
    lemma_sum_eq(n, r0, r1);
    lemma_sum_eq(
        n,
        r1,
        |k: int|
            l.terms[k].0 * (|t: Tab| mle(column_of(f, t, pow2(log) as int), point))(
                l.terms[k].1,
            ),
    );
}

/// The columns of a well-formed expression fill the cube.
proof fn lemma_lin_columns(
    f: spec_fn(Tab) -> Seq<int>,
    p: ProfileView,
    log: nat,
    l: LinView,
    point: Seq<int>,
)
    requires
        vectors_fit(f, p),
        lin_wf(p, log as int, l),
        point.len() == log,
    ensures
        forall|k: int|
            0 <= k < l.terms.len() ==> column_of(
                f,
                (#[trigger] l.terms[k]).1,
                pow2(log) as int,
            ).len() == pow2(log),
{
    assert forall|k: int| 0 <= k < l.terms.len() implies column_of(
        f,
        (#[trigger] l.terms[k]).1,
        pow2(log) as int,
    ).len() == pow2(log) by {
        assert(tab_wf(p, log as int, l.terms[k].1));
        lemma_column_value(f, p, log, l.terms[k].1, point);
    }
}

/// The value of a vector at a point, as the rules take it.
pub open spec fn tab_value(f: spec_fn(Tab) -> Seq<int>, log: nat, point: Seq<int>, t: Tab) -> int {
    mle(column_of(f, t, pow2(log) as int), point)
}

/// The values of the numerators and the denominators of a sum of fractions.
pub proof fn lemma_mle_block(
    f: spec_fn(Tab) -> Seq<int>,
    p: ProfileView,
    b: BlockView,
    alpha: int,
    beta: int,
    point: Seq<int>,
)
    requires
        vectors_fit(f, p),
        block_wf(p, b),
        point.len() == b.log_len,
    ensures
        mle(numerators(f, b), point) == lin_value(
            b.num,
            |t: Tab| tab_value(f, b.log_len as nat, point, t),
        ),
        mle(denominators(f, b, alpha, beta), point) == alpha + fingerprint(
            b.comps,
            |t: Tab| tab_value(f, b.log_len as nat, point, t),
            beta,
        ),
{
    let log = b.log_len as nat;
    let len = pow2(log) as int;
    let num = numerators(f, b);
    lemma_lin_columns(f, p, log, b.num, point);
    lemma_mle_lin(f, b.num, log, point, num);
    let val = |t: Tab| tab_value(f, log, point, t);
    lemma_lin_same(
        b.num,
        |t: Tab| mle(column_of(f, t, pow2(log) as int), point),
        |t: Tab| tab_value(f, b.log_len as nat, point, t),
    );
    // the denominators
    let den = denominators(f, b, alpha, beta);
    let n = b.comps.len() as int;
    let cv = |i: int|
        Seq::new(
            pow2(log),
            |x: int| lin_value(b.comps[i], |t: Tab| column_of(f, t, pow2(log) as int)[x]),
        );
    let e = |x: int| eq_at(point, x);
    let ae = |x: int| alpha * e(x);
    let t = |x: int, i: int| (pow(beta, i as nat) * cv(i)[x]) * eq_at(point, x);
    let st = |x: int| sum_to(n, |i: int| t(x, i));
    let both = |x: int| ae(x) + st(x);
    let lhs = |i: int| den[i] * eq_at(point, i);
    assert forall|x: int| 0 <= x < len implies #[trigger] lhs(x) == both(x) by {
        let fx = |t: Tab| column_of(f, t, len)[x];
        let w = |i: int| pow(beta, i as nat) * lin_value(b.comps[i], fx);
        assert(den[x] == alpha + fingerprint(b.comps, |t: Tab| column_of(f, t, len)[x], beta));
        assert(fingerprint(b.comps, |t: Tab| column_of(f, t, len)[x], beta) == sum_to(n, w)) by {
            lemma_sum_eq(
                n,
                |i: int|
                    pow(beta, i as nat) * lin_value(
                        b.comps[i],
                        |t: Tab| column_of(f, t, len)[x],
                    ),
                w,
            );
        }
        let q = e(x);
        lemma_sum_scale(n, q, w);
        let a0 = |i: int| q * w(i);
        let b0 = |i: int| t(x, i);
        assert forall|i: int| 0 <= i < n implies #[trigger] a0(i) == b0(i) by {
            lemma_lin_same(b.comps[i], fx, |t: Tab| column_of(f, t, pow2(log) as int)[x]);
            assert(cv(i)[x] == lin_value(b.comps[i], fx));
            let u = w(i);
            assert(q * u == u * q) by (nonlinear_arith);
        }
        lemma_sum_eq(n, a0, b0);
        let s = sum_to(n, w);
        assert((alpha + s) * q == alpha * q + q * s) by (nonlinear_arith);
    }
    lemma_sum_eq(len, lhs, both);
    lemma_sum_add(len, ae, st);
    lemma_sum_scale(len, alpha, e);
    lemma_eq_total(point);
    assert(alpha * 1 == alpha);
    lemma_sum_swap(len, n, t);
    let r0 = |i: int| sum_to(len, |x: int| t(x, i));
    let r1 = |i: int|
        pow(beta, i as nat) * lin_value(
            b.comps[i],
            |t: Tab| tab_value(f, b.log_len as nat, point, t),
        );
    assert forall|i: int| 0 <= i < n implies #[trigger] r0(i) == r1(i) by {
        let w = pow(beta, i as nat);
        let c = cv(i);
        assert(lin_wf(p, b.log_len, b.comps[i]));
        lemma_lin_columns(f, p, log, b.comps[i], point);
        lemma_mle_lin(f, b.comps[i], log, point, c);
        lemma_lin_same(
            b.comps[i],
            |t: Tab| mle(column_of(f, t, pow2(log) as int), point),
            |t: Tab| tab_value(f, b.log_len as nat, point, t),
        );
        let y = |j: int| c[j] * eq_at(point, j);
        lemma_sum_scale(len, w, y);
        let a0 = |x: int| t(x, i);
        let b0 = |j: int| w * y(j);
        assert forall|x: int| 0 <= x < len implies #[trigger] a0(x) == b0(x) by {
            let u = c[x];
            let q = eq_at(point, x);
            assert((w * u) * q == w * (u * q)) by (nonlinear_arith);
        }
        lemma_sum_eq(len, a0, b0);
    }
    lemma_sum_eq(n, r0, r1);
}

/// The value of an expression depends on the values of its vectors alone.
pub proof fn lemma_lin_same(l: LinView, f: spec_fn(Tab) -> int, g: spec_fn(Tab) -> int)
    requires
        forall|k: int|
            0 <= k < l.terms.len() ==> f((#[trigger] l.terms[k]).1) == g(l.terms[k].1),
    ensures
        lin_value(l, f) == lin_value(l, g),
{
    let a = |k: int| l.terms[k].0 * f(l.terms[k].1);
    let b = |k: int| l.terms[k].0 * g(l.terms[k].1);
    assert forall|k: int| 0 <= k < l.terms.len() implies #[trigger] a(k) == b(k) by {
        assert(f(l.terms[k].1) == g(l.terms[k].1));
    }
    lemma_sum_eq(l.terms.len() as int, a, b);
}

/// How many values are read, and which.
proof fn lemma_committed_values(
    f: spec_fn(Tab) -> Seq<int>,
    tabs: Seq<Tab>,
    point: Seq<int>,
    n: int,
    k: int,
)
    requires
        0 <= k <= n <= tabs.len(),
    ensures
        committed_values(f, tabs, point, n).len() == num_committed(tabs, n),
        0 <= num_committed(tabs, k) <= num_committed(tabs, n),
        k < n && tabs[k].committed() ==> num_committed(tabs, k) < num_committed(tabs, n)
            && committed_values(f, tabs, point, n)[num_committed(tabs, k)] == mle(
            f(tabs[k]),
            point,
        ),
    decreases n,
{
    if n > 0 {
        if k < n {
            lemma_committed_values(f, tabs, point, n - 1, k);
        } else {
            lemma_committed_values(f, tabs, point, n - 1, n - 1);
        }
    }
}

/// The claims for the vectors of a sum of fractions are right.
proof fn lemma_claimed(
    srs: Seq<int>,
    f: spec_fn(Tab) -> Seq<int>,
    g: spec_fn(Tab) -> Seq<int>,
    p: ProfileView,
    log: nat,
    tabs: Seq<Tab>,
    point: Seq<int>,
    a: Acc,
    v: VerAcc,
    vals: Seq<int>,
    n: int,
)
    requires
        vectors_fit(f, p),
        committed_to(srs, f, g),
        tabs_wf(p, log as int, tabs),
        point.len() == log,
        log >= 1,
        0 <= n <= tabs.len(),
        forall|k: int|
            0 <= k < tabs.len() && (#[trigger] tabs[k]).committed() ==> vals[k] == mle(
                f(tabs[k]),
                point,
            ),
        claims_match(srs, a, v),
    ensures
        claims_match(
            srs,
            opened_at(a, f, tabs, point, n),
            claimed_at(v, g, tabs, point, vals, n),
        ),
    decreases n,
{
    if n > 0 {
        lemma_claimed(srs, f, g, p, log, tabs, point, a, v, vals, n - 1);
        let t = tabs[n - 1];
        assert(tab_wf(p, log as int, t));
        if t.committed() {
            lemma_fits_point(f, p, log, t);
            assert(g(t) == commit_of(srs, f(t)));
            lemma_claims_push(
                srs,
                opened_at(a, f, tabs, point, n - 1),
                claimed_at(v, g, tabs, point, vals, n - 1),
                f(t),
                point,
                vals[n - 1],
            );
        }
    }
}

proof fn lemma_block_extends(
    f: spec_fn(Tab) -> Seq<int>,
    b: BlockView,
    alpha: int,
    beta: int,
    st: ProofState,
    full: Sent,
)
    requires
        extends(full, prove_block(f, b, alpha, beta, st).0.s),
    ensures
        extends(full, st.s),
{
    reveal(prove_block);
    let num = numerators(f, b);
    let den = denominators(f, b, alpha, beta);
    let tabs = tabs_of(b);
    let (s, point) = send_fractions(num, den, b.log_len, st.s);
    lemma_read_fs(full, s, committed_values(f, tabs, point, tabs.len() as int));
    lemma_fractions_extends(num, den, b.log_len, st.s, full);
}

/// A sum of fractions whose denominators are invertible is accepted.
#[verifier::rlimit(40)]
proof fn lemma_block(
    srs: Seq<int>,
    f: spec_fn(Tab) -> Seq<int>,
    g: spec_fn(Tab) -> Seq<int>,
    p: ProfileView,
    b: BlockView,
    alpha: int,
    beta: int,
    st: ProofState,
    v: CheckState,
    full: Sent,
)
    requires
        vectors_fit(f, p),
        committed_to(srs, f, g),
        block_wf(p, b),
        b.log_len >= 1,
        claims_match(srs, st.acc, v.acc),
        v.st == rest_of(full, st.s),
        st.s.ch.len() >= layer_draws(b.log_len, 0),
        layers_off(b.log_len, 0, st.s.ch),
        prove_block(f, b, alpha, beta, st).0.ok,
        extends(full, prove_block(f, b, alpha, beta, st).0.s),
    ensures
        extends(full, st.s),
        st.ok,
        ({
            let (st1, sum) = prove_block(f, b, alpha, beta, st);
            let (v1, sum1) = verify_block(g, b, alpha, beta, v);
            &&& v1.st == rest_of(full, st1.s)
            &&& sum1 == sum
            &&& claims_match(srs, st1.acc, v1.acc)
            &&& st1.s.ch == st.s.ch.skip(layer_draws(b.log_len, 0))
        }),
{
    reveal(prove_block);
    reveal(verify_block);
    let log = b.log_len as nat;
    let num = numerators(f, b);
    let den = denominators(f, b, alpha, beta);
    let tabs = tabs_of(b);
    let n = tabs.len() as int;
    let (s1, point) = send_fractions(num, den, b.log_len, st.s);
    let opened = committed_values(f, tabs, point, n);
    lemma_read_fs(full, s1, opened);
    assert(all_units(den));
    law_fractions(num, den, log, full, st.s);
    let (st1, sum, c) = verify_fractions(b.log_len, v.st);
    lemma_committed_values(f, tabs, point, n, 0);
    let vals = read_values(tabs, point, opened);
    lemma_tabs_of(p, b);
    assert forall|k: int| 0 <= k < n implies #[trigger] vals[k] == tab_value(
        f,
        log,
        point,
        tabs[k],
    ) by {
        lemma_committed_values(f, tabs, point, n, k);
        assert(tab_wf(p, b.log_len, tabs[k]));
        lemma_column_value(f, p, log, tabs[k], point);
    }
    let look = |t: Tab| vals[place(tabs, t, 0)];
    let val = |t: Tab| tab_value(f, b.log_len as nat, point, t);
    assert forall|t: Tab| tabs.contains(t) implies #[trigger] look(t) == val(t) by {
        lemma_place(tabs, t, 0);
    }
    lemma_mle_block(f, p, b, alpha, beta, point);
    lemma_lin_same(b.num, look, val);
    let x = |i: int| pow(beta, i as nat) * lin_value(b.comps[i], look);
    let y = |i: int| pow(beta, i as nat) * lin_value(b.comps[i], val);
    assert forall|i: int| 0 <= i < b.comps.len() implies #[trigger] x(i) == y(i) by {
        assert(lin_covered(b.comps[i], tabs));
        lemma_lin_same(b.comps[i], look, val);
    }
    lemma_sum_eq(b.comps.len() as int, x, y);
    assert forall|k: int| 0 <= k < tabs.len() && (#[trigger] tabs[k]).committed() implies vals[k]
        == mle(f(tabs[k]), point) by {
        assert(vals[k] == tab_value(f, log, point, tabs[k]));
        assert(tab_wf(p, b.log_len, tabs[k]));
        lemma_column_value(f, p, log, tabs[k], point);
    }
    lemma_claimed(srs, f, g, p, log, tabs, point, st.acc, v.acc, vals, n);
}

/// None of the challenges of the rounds of the first `n` sums of fractions is a node.
pub open spec fn blocks_off(bs: Seq<BlockView>, ch: Seq<int>, n: int) -> bool {
    forall|i: int|
        0 <= i < n ==> layers_off(
            (#[trigger] bs[i]).log_len,
            0,
            ch.skip(blocks_draws(bs, i)),
        )
}

proof fn lemma_layer_draws_pos(n: int, k: int)
    requires
        0 <= k,
    ensures
        layer_draws(n, k) >= 0,
    decreases n - k,
{
    if k < n {
        lemma_layer_draws_pos(n, k + 1);
    }
}

proof fn lemma_blocks_extends(
    f: spec_fn(Tab) -> Seq<int>,
    bs: Seq<BlockView>,
    alpha: int,
    beta: int,
    st: ProofState,
    n: int,
    full: Sent,
)
    requires
        extends(full, prove_blocks(f, bs, alpha, beta, st, n).0.s),
    ensures
        extends(full, st.s),
    decreases n,
{
    if n > 0 {
        let before = prove_blocks(f, bs, alpha, beta, st, n - 1).0;
        lemma_block_extends(f, bs[n - 1], alpha, beta, before, full);
        lemma_blocks_extends(f, bs, alpha, beta, st, n - 1, full);
    }
}

/// The first `n` sums of fractions are accepted.
proof fn lemma_blocks(
    srs: Seq<int>,
    f: spec_fn(Tab) -> Seq<int>,
    g: spec_fn(Tab) -> Seq<int>,
    p: ProfileView,
    bs: Seq<BlockView>,
    alpha: int,
    beta: int,
    st: ProofState,
    v: CheckState,
    n: int,
    full: Sent,
)
    requires
        vectors_fit(f, p),
        committed_to(srs, f, g),
        0 <= n <= bs.len(),
        blocks_wf(p, bs),
        forall|i: int| 0 <= i < bs.len() ==> (#[trigger] bs[i]).log_len >= 1,
        claims_match(srs, st.acc, v.acc),
        v.st == rest_of(full, st.s),
        st.s.ch.len() >= blocks_draws(bs, n),
        blocks_off(bs, st.s.ch, n),
        prove_blocks(f, bs, alpha, beta, st, n).0.ok,
        extends(full, prove_blocks(f, bs, alpha, beta, st, n).0.s),
    ensures
        extends(full, st.s),
        st.ok,
        blocks_draws(bs, n) >= 0,
        ({
            let (st1, sum) = prove_blocks(f, bs, alpha, beta, st, n);
            let (v1, sum1) = verify_blocks(g, bs, alpha, beta, v, n);
            &&& v1.st == rest_of(full, st1.s)
            &&& sum1 == sum
            &&& claims_match(srs, st1.acc, v1.acc)
            &&& st1.s.ch == st.s.ch.skip(blocks_draws(bs, n))
        }),
    decreases n,
{
    if n > 0 {
        let b = bs[n - 1];
        let before = prove_blocks(f, bs, alpha, beta, st, n - 1).0;
        lemma_layer_draws_pos(b.log_len, 0);
        lemma_block_extends(f, b, alpha, beta, before, full);
        assert(before.ok) by {
            reveal(prove_block);
        }
        assert(blocks_off(bs, st.s.ch, n - 1));
        lemma_blocks(srs, f, g, p, bs, alpha, beta, st, v, n - 1, full);
        let o = blocks_draws(bs, n - 1);
        assert(layers_off(bs[n - 1].log_len, 0, st.s.ch.skip(o)));
        let vb = verify_blocks(g, bs, alpha, beta, v, n - 1).0;
        assert(block_wf(p, b));
        lemma_block(srs, f, g, p, b, alpha, beta, before, vb, full);
        let d = layer_draws(b.log_len, 0);
        assert(st.s.ch.skip(o).skip(d) =~= st.s.ch.skip(o + d));
    } else {
        assert(st.s.ch.skip(0) =~= st.s.ch);
    }
}

/// None of the challenges of the rounds of an equality is a node.
pub open spec fn equality_off(e: EqualityView, ch: Seq<int>) -> bool {
    let n = e.left.len() as int;
    &&& blocks_off(e.left, ch.skip(2), n)
    &&& blocks_off(e.right, ch.skip(2 + blocks_draws(e.left, n)), e.right.len() as int)
}

/// All the sums of an equality have a variable.
pub open spec fn equality_long(e: EqualityView) -> bool {
    &&& forall|i: int| 0 <= i < e.left.len() ==> (#[trigger] e.left[i]).log_len >= 1
    &&& forall|i: int| 0 <= i < e.right.len() ==> (#[trigger] e.right[i]).log_len >= 1
}

proof fn lemma_equality_extends(
    f: spec_fn(Tab) -> Seq<int>,
    e: EqualityView,
    st: ProofState,
    full: Sent,
)
    requires
        extends(full, prove_equality(f, e, st).s),
    ensures
        extends(full, st.s),
{
    reveal(prove_equality);
    let alpha = st.s.ch[0];
    let beta = st.s.ch[1];
    let st1 = ProofState { s: drawn(st.s, 2), ..st };
    let (st2, left) = prove_blocks(f, e.left, alpha, beta, st1, e.left.len() as int);
    lemma_blocks_extends(f, e.right, alpha, beta, st2, e.right.len() as int, full);
    lemma_blocks_extends(f, e.left, alpha, beta, st1, e.left.len() as int, full);
}

/// An equality whose two sides are equal is accepted.
proof fn lemma_equality(
    srs: Seq<int>,
    f: spec_fn(Tab) -> Seq<int>,
    g: spec_fn(Tab) -> Seq<int>,
    p: ProfileView,
    e: EqualityView,
    st: ProofState,
    v: CheckState,
    full: Sent,
)
    requires
        vectors_fit(f, p),
        committed_to(srs, f, g),
        equality_wf(p, e),
        equality_long(e),
        claims_match(srs, st.acc, v.acc),
        v.st == rest_of(full, st.s),
        st.s.ch.len() >= equality_draws(e),
        equality_off(e, st.s.ch),
        prove_equality(f, e, st).ok,
        extends(full, prove_equality(f, e, st).s),
    ensures
        extends(full, st.s),
        st.ok,
        equality_draws(e) >= 0,
        ({
            let st1 = prove_equality(f, e, st);
            let v1 = verify_equality(g, e, v);
            &&& v1.st == rest_of(full, st1.s)
            &&& claims_match(srs, st1.acc, v1.acc)
            &&& st1.s.ch == st.s.ch.skip(equality_draws(e))
        }),
{
    reveal(prove_equality);
    reveal(verify_equality);
    let n = e.left.len() as int;
    let m = e.right.len() as int;
    let alpha = st.s.ch[0];
    let beta = st.s.ch[1];
    let s2 = drawn(st.s, 2);
    let st1 = ProofState { s: s2, ..st };
    let (st2, left) = prove_blocks(f, e.left, alpha, beta, st1, n);
    lemma_blocks_extends(f, e.right, alpha, beta, st2, m, full);
    lemma_blocks_draws_pos(e.left, n);
    lemma_blocks_draws_pos(e.right, m);
    lemma_blocks_ok(f, e.right, alpha, beta, st2, m);
    let sa = drawn(st.s, 1);
    lemma_challenge(full, st.s);
    lemma_challenge(full, sa);
    assert(drawn(sa, 1).ch =~= s2.ch);
    assert(drawn(sa, 1) == s2);
    let v0 = CheckState { st: rest_of(full, s2), ..v };
    lemma_blocks(srs, f, g, p, e.left, alpha, beta, st1, v0, n, full);
    let (v1, left1) = verify_blocks(g, e.left, alpha, beta, v0, n);
    let o = blocks_draws(e.left, n);
    assert(st2.s.ch =~= st.s.ch.skip(2 + o));
    lemma_blocks(srs, f, g, p, e.right, alpha, beta, st2, v1, m, full);
    let r = blocks_draws(e.right, m);
    assert(st.s.ch.skip(2 + o).skip(r) =~= st.s.ch.skip(2 + o + r));
}

proof fn lemma_blocks_draws_pos(bs: Seq<BlockView>, n: int)
    ensures
        blocks_draws(bs, n) >= 0,
    decreases n,
{
    if n > 0 {
        lemma_blocks_draws_pos(bs, n - 1);
        lemma_layer_draws_pos(bs[n - 1].log_len, 0);
    }
}

/// If all went well in the end, it did before.
proof fn lemma_blocks_ok(
    f: spec_fn(Tab) -> Seq<int>,
    bs: Seq<BlockView>,
    alpha: int,
    beta: int,
    st: ProofState,
    n: int,
)
    requires
        prove_blocks(f, bs, alpha, beta, st, n).0.ok,
    ensures
        st.ok,
    decreases n,
{
    if n > 0 {
        reveal(prove_block);
        lemma_blocks_ok(f, bs, alpha, beta, st, n - 1);
    }
}

/// None of the challenges of the rounds of the first `n` equalities is a node.
pub open spec fn equalities_off(es: Seq<EqualityView>, ch: Seq<int>, n: int) -> bool {
    forall|i: int|
        0 <= i < n ==> equality_off(#[trigger] es[i], ch.skip(equalities_draws(es, i)))
}

proof fn lemma_equalities_extends(
    f: spec_fn(Tab) -> Seq<int>,
    es: Seq<EqualityView>,
    st: ProofState,
    n: int,
    full: Sent,
)
    requires
        extends(full, prove_equalities(f, es, st, n).s),
    ensures
        extends(full, st.s),
    decreases n,
{
    if n > 0 {
        lemma_equality_extends(f, es[n - 1], prove_equalities(f, es, st, n - 1), full);
        lemma_equalities_extends(f, es, st, n - 1, full);
    }
}

/// The first `n` equalities are accepted.
proof fn lemma_equalities(
    srs: Seq<int>,
    f: spec_fn(Tab) -> Seq<int>,
    g: spec_fn(Tab) -> Seq<int>,
    p: ProfileView,
    es: Seq<EqualityView>,
    st: ProofState,
    v: CheckState,
    n: int,
    full: Sent,
)
    requires
        vectors_fit(f, p),
        committed_to(srs, f, g),
        0 <= n <= es.len(),
        forall|i: int| 0 <= i < es.len() ==> equality_wf(p, #[trigger] es[i]),
        forall|i: int| 0 <= i < es.len() ==> equality_long(#[trigger] es[i]),
        claims_match(srs, st.acc, v.acc),
        v.st == rest_of(full, st.s),
        st.s.ch.len() >= equalities_draws(es, n),
        equalities_off(es, st.s.ch, n),
        prove_equalities(f, es, st, n).ok,
        extends(full, prove_equalities(f, es, st, n).s),
    ensures
        extends(full, st.s),
        st.ok,
        equalities_draws(es, n) >= 0,
        ({
            let st1 = prove_equalities(f, es, st, n);
            let v1 = verify_equalities(g, es, v, n);
            &&& v1.st == rest_of(full, st1.s)
            &&& claims_match(srs, st1.acc, v1.acc)
            &&& st1.s.ch == st.s.ch.skip(equalities_draws(es, n))
        }),
    decreases n,
{
    if n > 0 {
        let e = es[n - 1];
        let before = prove_equalities(f, es, st, n - 1);
        lemma_equality_extends(f, e, before, full);
        assert(before.ok) by {
            reveal(prove_equality);
            let alpha = before.s.ch[0];
            let beta = before.s.ch[1];
            let st1 = ProofState { s: drawn(before.s, 2), ..before };
            let (st2, left) = prove_blocks(f, e.left, alpha, beta, st1, e.left.len() as int);
            lemma_blocks_ok(f, e.right, alpha, beta, st2, e.right.len() as int);
            lemma_blocks_ok(f, e.left, alpha, beta, st1, e.left.len() as int);
        }
        lemma_blocks_draws_pos(e.left, e.left.len() as int);
        lemma_blocks_draws_pos(e.right, e.right.len() as int);
        assert(equalities_off(es, st.s.ch, n - 1));
        lemma_equalities(srs, f, g, p, es, st, v, n - 1, full);
        let o = equalities_draws(es, n - 1);
        assert(equality_off(es[n - 1], st.s.ch.skip(o)));
        assert(equality_wf(p, es[n - 1]) && equality_long(es[n - 1]));
        let vb = verify_equalities(g, es, v, n - 1);
        lemma_equality(srs, f, g, p, e, before, vb, full);
        let d = equality_draws(e);
        assert(st.s.ch.skip(o).skip(d) =~= st.s.ch.skip(o + d));
    } else {
        assert(st.s.ch.skip(0) =~= st.s.ch);
    }
}

/// The counters and the starts in the families begin and end where they should.
pub open spec fn boundaries_hold(f: spec_fn(Tab) -> Seq<int>, p: ProfileView) -> bool {
    forall|k: int|
        0 <= k < num_boundaries() ==> {
            let b = #[trigger] boundary_of(p, k);
            cong(b.value, mle(f(b.tab), b.point))
        }
}

/// The claims on the first and the last vertex are right.
proof fn lemma_boundaries(
    srs: Seq<int>,
    f: spec_fn(Tab) -> Seq<int>,
    g: spec_fn(Tab) -> Seq<int>,
    p: ProfileView,
    a: Acc,
    v: VerAcc,
    n: int,
)
    requires
        vectors_fit(f, p),
        committed_to(srs, f, g),
        boundaries_hold(f, p),
        claims_match(srs, a, v),
        0 <= n <= num_boundaries(),
    ensures
        claims_match(srs, opened_boundaries(a, f, p, n), claimed_boundaries(v, g, p, n)),
        opened_boundaries(a, f, p, n).polys.len() == a.polys.len() + n,
    decreases n,
{
    if n > 0 {
        lemma_boundaries(srs, f, g, p, a, v, n - 1);
        let b = boundary_of(p, n - 1);
        let log = log2_ceil(p.instr_count + 1);
        lemma_log2_ceil(p.instr_count + 1);
        assert(tab_wf(p, log as int, b.tab));
        lemma_fits_point(f, p, log, b.tab);
        assert(g(b.tab) == commit_of(srs, f(b.tab)));
        lemma_claims_push(
            srs,
            opened_boundaries(a, f, p, n - 1),
            claimed_boundaries(v, g, p, n - 1),
            f(b.tab),
            b.point,
            b.value,
        );
    }
}

/// A product of secrets does not depend on those whose bits are not set.
proof fn lemma_monomial(tau: Seq<int>, m: nat, i: int)
    requires
        m <= tau.len(),
        0 <= i < pow2(m),
    ensures
        crate::kzg::monomial(tau, i) == crate::kzg::monomial(tau.take(m as int), i),
    decreases tau.len(),
{
    if m < tau.len() {
        let n = (tau.len() - 1) as nat;
        let one = crate::kzg::ones(tau.len());
        lemma_pow2_mono(m, n);
        lemma_pow2_step(n);
        crate::poly::lemma_prod_at_last(one, tau, i);
        vstd::arithmetic::div_mod::lemma_small_mod(i as nat, pow2(n));
        assert(one.drop_last() =~= crate::kzg::ones(n));
        let less = tau.drop_last();
        let x = crate::kzg::monomial(less, i);
        assert(x * 1 == x);
        lemma_monomial(less, m, i);
        assert(less.take(m as int) =~= tau.take(m as int));
    } else {
        assert(tau.take(m as int) =~= tau);
    }
}

/// The first parameters are those for the first secrets.
proof fn lemma_trim(g: int, tau: Seq<int>, m: nat)
    requires
        m <= tau.len(),
    ensures
        srs_of(g, tau).take(pow2(m) as int) == srs_of(g, tau.take(m as int)),
{
    lemma_pow2_mono(m, tau.len());
    let a = srs_of(g, tau).take(pow2(m) as int);
    let b = srs_of(g, tau.take(m as int));
    assert forall|i: int| 0 <= i < pow2(m) implies a[i] == b[i] by {
        lemma_monomial(tau, m, i);
    }
    assert(a =~= b);
}

/// The commitment to a vector that fits in the first parameters is made with those.
pub proof fn lemma_commit_trim(srs: Seq<int>, n: int, f: Seq<int>)
    requires
        0 < f.len() <= n <= srs.len(),
    ensures
        commit_of(srs, f) == commit_of(srs.take(n), f),
{
    let less = srs.take(n);
    let l = f.len() as int;
    lemma_num_chunks(l, n);
    lemma_num_chunks(l, srs.len() as int);
    lemma_one_chunk(l, n);
    lemma_one_chunk(l, srs.len() as int);
    let a = commit_of(srs, f);
    let b = commit_of(less, f);
    let x = |j: int| srs[j] * at(f, 0 * srs.len() + j);
    let y = |j: int| less[j] * at(f, 0 * less.len() + j);
    assert forall|j: int| n <= j < srs.len() implies #[trigger] x(j) == 0 by {
        assert(srs[j] * 0 == 0);
    }
    lemma_sum_extend(n, srs.len() as int, x);
    lemma_sum_eq(n, x, y);
    assert(a =~= b);
}

proof fn lemma_one_chunk(l: int, n: int)
    requires
        0 < l <= n,
    ensures
        num_chunks(l, n) == 1,
{
    lemma_num_chunks(l, n);
    let c = num_chunks(l, n);
    assert(c == 1) by (nonlinear_arith)
        requires
            l <= c * n < l + n,
            0 < l <= n,
            c >= 1,
    ;
}

/// No vector has more variables than the greatest number that a registration speaks of.
pub proof fn lemma_tab_log(p: ProfileView, t: Tab)
    requires
        profile_fits(p),
        t.committed(),
        tab_ok(t),
    ensures
        0 <= tab_log(p, t) <= log_srs_of(p),
{
}

/// The commitments are also those with the parameters of a registration.
proof fn lemma_trimmed(
    g: int,
    h: int,
    tau: Seq<int>,
    f: spec_fn(Tab) -> Seq<int>,
    gv: spec_fn(Tab) -> Seq<int>,
    p: ProfileView,
)
    requires
        profile_fits(p),
        vectors_fit(f, p),
        committed_to(srs_of(g, tau), f, gv),
    ensures
        ({
            let m = min(log_srs_of(p), tau.len() as int);
            &&& 0 <= m <= tau.len()
            &&& trimmed(srs_of(g, tau), p) == srs_of(g, tau.take(m))
            &&& trimmed_ver(ver_params_of(g, h, tau), p) == ver_params_of(g, h, tau.take(m))
            &&& committed_to(srs_of(g, tau.take(m)), f, gv)
        }),
{
    let log = log_srs_of(p);
    let m = min(log, tau.len() as int);
    let srs = srs_of(g, tau);
    assert(log >= 0);
    lemma_trim(g, tau, m as nat);
    if log <= tau.len() {
        lemma_pow2_mono(log as nat, tau.len());
    } else {
        lemma_pow2_mono(tau.len(), log as nat);
        assert(srs.take(srs.len() as int) =~= srs);
    }
    let vp = ver_params_of(g, h, tau);
    assert(trimmed_ver(vp, p).params =~= ver_params_of(g, h, tau.take(m)).params);
    assert forall|t: Tab| t.committed() && tab_ok(t) implies #[trigger] gv(t) == commit_of(
        srs_of(g, tau.take(m)),
        f(t),
    ) by {
        assert(gv(t) == commit_of(srs, f(t)));
        lemma_tab_log(p, t);
        assert(0 < f(t).len() <= pow2(tab_log(p, t) as nat));
        if log <= tau.len() {
            lemma_pow2_mono(tab_log(p, t) as nat, log as nat);
            lemma_commit_trim(srs, pow2(m as nat) as int, f(t));
        } else {
            assert(tau.take(m) =~= tau);
        }
    }
}

/// All the sums of the equalities of a certificate have a variable.
proof fn lemma_equalities_long(p: ProfileView)
    requires
        profile_fits(p),
        p.log_range >= 1,
    ensures
        forall|k: int|
            0 <= k < equalities_of(p).len() ==> equality_long(#[trigger] equalities_of(p)[k]),
{
    lemma_log2_ceil(p.instr_count + 1);
    lemma_log2_ceil(p.cons_line);
    lemma_log2_ceil(p.lu_line);
    lemma_log2_ceil(p.entry_len);
    lemma_log2_ceil(p.b_pre_len);
    lemma_log2_ceil(p.x_len);
    reveal(equalities_of);
    let z = equalities_of(p);
    assert forall|k: int| 0 <= k < z.len() implies equality_long(#[trigger] z[k]) by {
        if k < 10 {
            assert(k == 0 || k == 1 || k == 2 || k == 3 || k == 4 || k == 5 || k == 6 || k == 7
                || k == 8 || k == 9);
        } else if k < 22 {
            assert(z[k] == super::relation::eq_family(p, k - 10));
        } else {
            let e = super::relation::eq_expansion(p);
            assert(z[k] == e);
            assert forall|i: int| 0 <= i < e.right.len() implies (#[trigger] e.right[i]).log_len
                >= 1 by {
                assert(e.right[i] == super::relation::family_block(p, i));
            }
        }
    }
}

/// None of the challenges of the rounds of a certificate is a node.
pub open spec fn rules_off(p: ProfileView, ch: Seq<int>) -> bool {
    let xs = zero_checks_of(p);
    let es = equalities_of(p);
    let m = NUM_CHALLENGES as int;
    let n = checks_draws(xs, xs.len() as int);
    &&& checks_off(xs, ch.skip(m), xs.len() as int)
    &&& equalities_off(es, ch.skip(m + n), es.len() as int)
}

/// The vectors keep the rules of a certificate: its zero checks hold for the challenges
/// that join their expressions, the denominators of its sums are invertible and the sums
/// are equal, and the counters begin and end where they should.
pub open spec fn rules_kept(f: spec_fn(Tab) -> Seq<int>, p: ProfileView, ch: Seq<int>) -> bool {
    let xs = zero_checks_of(p);
    &&& forall|i: int|
        0 <= i < xs.len() ==> check_holds(f, #[trigger] xs[i], ch.take(NUM_CHALLENGES as int))
    &&& prove_rules(f, p, ch).ok
    &&& boundaries_hold(f, p)
}

/// The certificate for vectors that keep the rules is accepted by a verifier that holds
/// commitments to the vectors; both sides have drawn the same challenges in the end.
#[verifier::rlimit(40)]
pub proof fn law_certificate(
    g: int,
    h: int,
    tau: Seq<int>,
    p: ProfileView,
    f: spec_fn(Tab) -> Seq<int>,
    gv: spec_fn(Tab) -> Seq<int>,
    ch: Seq<int>,
)
    requires
        profile_fits(p),
        p.log_range >= 1,
        vectors_fit(f, p),
        committed_to(srs_of(g, tau), f, gv),
        rules_kept(f, p, ch),
        rules_off(p, ch),
        super::certificate::certifiable(srs_of(g, tau), f, p, ch),
    ensures
        ({
            let full = certificate_of(srs_of(g, tau), f, p, ch);
            let st = verify_rules(
                ver_params_of(g, h, tau),
                gv,
                p,
                State { u: full.u, f: full.f, g: full.g, ch, ok: true },
            );
            st.ok && st.ch == full.ch
        }),
{
    reveal(prove_rules);
    reveal(verify_rules);
    let m = NUM_CHALLENGES as int;
    let xs = zero_checks_of(p);
    let es = equalities_of(p);
    let nx = xs.len() as int;
    let ne = es.len() as int;
    let k = min(log_srs_of(p), tau.len() as int);
    lemma_trimmed(g, h, tau, f, gv, p);
    let tau1 = tau.take(k);
    let srs = srs_of(g, tau1);
    let full = certificate_of(srs_of(g, tau), f, p, ch);
    let s0 = crate::prover::fresh(ch);
    let chals = ch.take(m);
    let none = Acc { polys: Seq::empty(), points: Seq::empty() };
    let st0 = ProofState { s: drawn(s0, m), acc: none, ok: true };
    let st1 = prove_checks(f, xs, chals, st0, nx);
    let st2 = prove_equalities(f, es, st1, ne);
    let st3 = ProofState { acc: opened_boundaries(st2.acc, f, p, num_boundaries()), ..st2 };
    assert(prove_rules(f, p, ch) == st3);
    lemma_extends_self(full, ch);
    lemma_batch_extends(srs, st3.acc, full, st3.s);
    lemma_equalities_extends(f, es, st1, ne, full);
    let v0 = CheckState {
        st: rest_of(full, st0.s),
        acc: VerAcc { commits: Seq::empty(), points: Seq::empty(), values: Seq::empty() },
    };
    assert(claims_match(srs, none, v0.acc));
    assert(full.u.skip(0) =~= full.u);
    assert(full.f.skip(0) =~= full.f);
    assert(full.g.skip(0) =~= full.g);
    lemma_equalities_draws_pos(es, ne);
    lemma_checks_wf(p);
    lemma_equalities_wf(p);
    lemma_equalities_long(p);
    lemma_checks_draws_pos(p, xs, nx);
    lemma_challenges(full, s0, m);
    lemma_checks(srs, f, gv, p, xs, chals, st0, v0, nx, full);
    let v1 = verify_checks(gv, xs, chals, v0, nx);
    let n = checks_draws(xs, nx);
    assert(st1.s.ch =~= ch.skip(m + n));
    lemma_equalities(srs, f, gv, p, es, st1, v1, ne, full);
    let v2 = verify_equalities(gv, es, v1, ne);
    lemma_boundaries(srs, f, gv, p, st2.acc, v2.acc, num_boundaries());
    let acc = claimed_boundaries(v2.acc, gv, p, num_boundaries());
    lemma_batch_accepted(g, h, tau1, st3.acc, acc, full, st3.s);
}

proof fn lemma_checks_draws_pos(p: ProfileView, xs: Seq<CheckView>, n: int)
    requires
        n <= xs.len(),
        forall|i: int| 0 <= i < xs.len() ==> check_wf(p, #[trigger] xs[i]),
    ensures
        checks_draws(xs, n) >= 0,
    decreases n,
{
    if n > 0 {
        lemma_checks_draws_pos(p, xs, n - 1);
        assert(check_wf(p, xs[n - 1]));
    }
}

proof fn lemma_equalities_draws_pos(es: Seq<EqualityView>, n: int)
    ensures
        equalities_draws(es, n) >= 0,
    decreases n,
{
    if n > 0 {
        lemma_equalities_draws_pos(es, n - 1);
        let e = es[n - 1];
        lemma_blocks_draws_pos(e.left, e.left.len() as int);
        lemma_blocks_draws_pos(e.right, e.right.len() as int);
    }
}

} // verus!
