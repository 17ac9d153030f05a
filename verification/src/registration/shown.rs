//! What an accepted certificate shows about the vectors that its claims are on.
use vstd::prelude::*;
use vstd::arithmetic::power::*;
use vstd::arithmetic::power2::*;
use crate::channel::{State, challenge, challenges, read_fs, require};
use crate::field::{cong, inverse_of, invertible, lemma_cong_ops, lemma_inverse_of};
use crate::interpolation::lemma_sum_cong;
use crate::kzg::VerParams;
use crate::multiplicities::{
    Share, hidden, inverted, law_same_weights, lemma_shares_add, lemma_shares_sum, opposite,
    shares_sum, weight_of,
};
use crate::poly::{eq_at, mle};
use crate::refusal::{lemma_batch_ok, lemma_rounds_len, lemma_rounds_ok};
use crate::replay::row_at;
use crate::soundness::{all_zero, law_nonzero, met, vanished};
use crate::sparse::eq_table;
use crate::sparse_verifier::{VerAcc, ver_push, verify_batch};
use crate::sumcheck::{gate_value, same_len, values_at};
use crate::sums::{lemma_sum_eq, sum_to};
use super::accepted::{
    boundaries_hold, check_holds, lemma_column_value, lemma_mle_block, tab_value,
};
use super::args::{fraction_sum, verify_eq_sum, verify_fractions, weighted_gate};
use super::args_laws::{eq_sum, layer_right};
use super::args_soundness::{
    fractions_start, law_sound_eq_sum, law_sound_fractions, layers_slip, lemma_fractions_len,
    lemma_fractions_ok,
};
use super::certificate::{
    CheckState, all_units, boundary_of, claimed_at, claimed_boundaries, column_of, columns_of,
    denominators, fingerprint, lemma_tabs_of, num_boundaries, num_committed, numerators, public_at,
    read_values, settled, tabs_of, trimmed_ver, vectors_fit, verify_block, verify_blocks,
    verify_check, verify_checks, verify_equalities, verify_equality, verify_rules,
};
use super::relation::{
    BlockView, CheckView, EqualityView, LinView, NUM_CHALLENGES, Tab, equalities_of, lemma_place,
    lin_covered, lin_value, place, zero_checks_of,
};
use super::wellformed::{
    block_wf, blocks_wf, check_wf, equality_wf, lemma_checks_wf, lemma_equalities_wf, tab_wf,
};
use super::witness::{ProfileView, profile_fits, tab_ok};

verus! {

/// Claims, each with a commitment, a point and a value.
pub open spec fn even(a: VerAcc) -> bool {
    a.points.len() == a.commits.len() && a.values.len() == a.commits.len()
}

/// Some claims are the first ones of others.
pub open spec fn starts(a: VerAcc, b: VerAcc) -> bool {
    &&& a.commits.len() <= b.commits.len()
    &&& forall|i: int|
        0 <= i < a.commits.len() ==> #[trigger] b.commits[i] == a.commits[i] && b.points[i]
            == a.points[i] && b.values[i] == a.values[i]
}

/// The claims on the commitment to a vector are right of the vector.
pub open spec fn bound_to(
    f: spec_fn(Tab) -> Seq<int>,
    g: spec_fn(Tab) -> Seq<int>,
    a: VerAcc,
) -> bool {
    forall|i: int, t: Tab|
        0 <= i < a.commits.len() && t.committed() && tab_ok(t) && #[trigger] a.commits[i]
            == #[trigger] g(t) ==> cong(a.values[i], mle(f(t), a.points[i]))
}

/// A claim that was made is right.
proof fn lemma_claim(
    f: spec_fn(Tab) -> Seq<int>,
    g: spec_fn(Tab) -> Seq<int>,
    a: VerAcc,
    t: Tab,
    p: Seq<int>,
    v: int,
    all: VerAcc,
)
    requires
        even(a),
        t.committed(),
        tab_ok(t),
        starts(ver_push(a, g(t), p, v), all),
        bound_to(f, g, all),
    ensures
        cong(v, mle(f(t), p)),
        starts(a, all),
{
    let b = ver_push(a, g(t), p, v);
    let i = a.commits.len() as int;
    assert(all.commits[i] == b.commits[i]);
    assert(all.commits[i] == g(t));
    assert forall|j: int| 0 <= j < a.commits.len() implies #[trigger] all.commits[j] == a.commits[j]
        && all.points[j] == a.points[j] && all.values[j] == a.values[j] by {
        assert(all.commits[j] == b.commits[j]);
    }
}

/// What is settled: the values that were read are those of the vectors.
proof fn lemma_settled(
    f: spec_fn(Tab) -> Seq<int>,
    g: spec_fn(Tab) -> Seq<int>,
    v: CheckState,
    tabs: Seq<Tab>,
    p: Seq<int>,
    vals: Seq<int>,
    n: int,
    all: VerAcc,
)
    requires
        even(v.acc),
        0 <= n <= tabs.len(),
        forall|k: int| 0 <= k < tabs.len() ==> tab_ok(#[trigger] tabs[k]),
    ensures
        even(settled(v, g, tabs, p, vals, n).acc),
        settled(v, g, tabs, p, vals, n).st.ok ==> v.st.ok,
        bound_to(f, g, all) && starts(settled(v, g, tabs, p, vals, n).acc, all) ==> starts(
            v.acc,
            all,
        ),
        bound_to(f, g, all) && starts(settled(v, g, tabs, p, vals, n).acc, all) && settled(
            v,
            g,
            tabs,
            p,
            vals,
            n,
        ).st.ok ==> forall|k: int|
            0 <= k < n ==> cong(
                #[trigger] vals[k],
                if tabs[k].committed() {
                    mle(f(tabs[k]), p)
                } else {
                    public_at(tabs[k], p)
                },
            ),
    decreases n,
{
    if n > 0 {
        let w = settled(v, g, tabs, p, vals, n - 1);
        let t = tabs[n - 1];
        lemma_settled(f, g, v, tabs, p, vals, n - 1, all);
        if t.committed() && bound_to(f, g, all) && starts(
            settled(v, g, tabs, p, vals, n).acc,
            all,
        ) {
            lemma_claim(f, g, w.acc, t, p, vals[n - 1], all);
        }
    }
}

/// What is claimed for a sum of fractions: the values are those of the vectors.
proof fn lemma_claimed(
    f: spec_fn(Tab) -> Seq<int>,
    g: spec_fn(Tab) -> Seq<int>,
    a: VerAcc,
    tabs: Seq<Tab>,
    p: Seq<int>,
    vals: Seq<int>,
    n: int,
    all: VerAcc,
)
    requires
        even(a),
        0 <= n <= tabs.len(),
        forall|k: int| 0 <= k < tabs.len() ==> tab_ok(#[trigger] tabs[k]),
    ensures
        even(claimed_at(a, g, tabs, p, vals, n)),
        bound_to(f, g, all) && starts(claimed_at(a, g, tabs, p, vals, n), all) ==> starts(a, all),
        bound_to(f, g, all) && starts(claimed_at(a, g, tabs, p, vals, n), all) ==> forall|k: int|
            0 <= k < n && tabs[k].committed() ==> cong(#[trigger] vals[k], mle(f(tabs[k]), p)),
    decreases n,
{
    if n > 0 {
        let w = claimed_at(a, g, tabs, p, vals, n - 1);
        let t = tabs[n - 1];
        lemma_claimed(f, g, a, tabs, p, vals, n - 1, all);
        if t.committed() && bound_to(f, g, all) && starts(
            claimed_at(a, g, tabs, p, vals, n),
            all,
        ) {
            lemma_claim(f, g, w, t, p, vals[n - 1], all);
        }
    }
}

/// What the expression of a zero check leaves at each place.
pub open spec fn check_residues(
    f: spec_fn(Tab) -> Seq<int>,
    x: CheckView,
    chals: Seq<int>,
) -> Seq<int> {
    let cols = columns_of(f, x.tables, pow2(x.log_len as nat) as int);
    Seq::new(pow2(x.log_len as nat), |j: int| gate_value(x.gate, row_at(cols, j), chals))
}

/// A zero check shows that its expression is zero at every place; unless in some round
/// messages that differ meet at the challenge, or a challenge that weighs the places makes
/// what is left vanish.
pub open spec fn check_shown(
    f: spec_fn(Tab) -> Seq<int>,
    x: CheckView,
    chals: Seq<int>,
    st: State,
) -> bool {
    let (st1, eq_point) = challenges(st, x.log_len);
    let len = pow2(x.log_len as nat) as int;
    ||| check_holds(f, x, chals)
    ||| vanished(check_residues(f, x, chals), eq_point)
    ||| met(
        0,
        x.log_len,
        x.degree,
        st1,
        weighted_gate(x.gate, x.tables.len() as usize),
        chals,
        columns_of(f, x.tables, len).push(eq_table(eq_point)),
        len,
    )
}

proof fn lemma_eq_sum_ok(
    st: State,
    eq_point: Seq<int>,
    claim: int,
    d: int,
    n: int,
    g: crate::sumcheck::Gate,
    coins: Seq<int>,
)
    ensures
        verify_eq_sum(st, eq_point, claim, d, n, g, coins).0.ok ==> st.ok,
        verify_eq_sum(st, eq_point, claim, d, n, g, coins).1.len() == eq_point.len(),
{
    reveal(verify_eq_sum);
    lemma_rounds_ok(claim, eq_point.len() as int, d, st);
    lemma_rounds_len(claim, eq_point.len() as int, d, st);
}

#[verifier::rlimit(40)]
proof fn lemma_check(
    f: spec_fn(Tab) -> Seq<int>,
    g: spec_fn(Tab) -> Seq<int>,
    p: ProfileView,
    x: CheckView,
    chals: Seq<int>,
    v: CheckState,
    all: VerAcc,
)
    requires
        vectors_fit(f, p),
        check_wf(p, x),
        chals.len() == NUM_CHALLENGES,
        even(v.acc),
        bound_to(f, g, all),
    ensures
        even(verify_check(g, x, chals, v).acc),
        verify_check(g, x, chals, v).st.ok ==> v.st.ok,
        starts(verify_check(g, x, chals, v).acc, all) ==> starts(v.acc, all),
        starts(verify_check(g, x, chals, v).acc, all) && verify_check(g, x, chals, v).st.ok
            ==> check_shown(f, x, chals, v.st),
{
    reveal(verify_check);
    let nv = x.log_len;
    let len = pow2(nv as nat) as int;
    let n = x.tables.len() as int;
    let (st1, eq_point) = challenges(v.st, nv);
    let (st2, point, vals) = verify_eq_sum(st1, eq_point, 0, x.degree, n, x.gate, chals);
    let w = CheckState { st: st2, ..v };
    assert forall|k: int| 0 <= k < x.tables.len() implies tab_ok(#[trigger] x.tables[k]) by {
        assert(tab_wf(p, nv, x.tables[k]));
    }
    lemma_settled(f, g, w, x.tables, point, vals, n, all);
    lemma_eq_sum_ok(st1, eq_point, 0, x.degree, n, x.gate, chals);
    let end = settled(w, g, x.tables, point, vals, n);
    if starts(end.acc, all) && end.st.ok {
        let cols = columns_of(f, x.tables, len);
        assert(eq_point.len() == nv);
        assert forall|t: int| 0 <= t < cols.len() implies (#[trigger] cols[t]).len() == len by {
            assert(tab_wf(p, nv, x.tables[t]));
            lemma_column_value(f, p, nv as nat, x.tables[t], point);
        }
        assert(same_len(cols, len));
        assert forall|i: int| 0 <= i < cols.len() implies cong(
            #[trigger] vals[i],
            values_at(cols, point)[i],
        ) by {
            assert(tab_wf(p, nv, x.tables[i]));
            lemma_column_value(f, p, nv as nat, x.tables[i], point);
            assert(values_at(cols, point)[i] == mle(cols[i], point));
        }
        law_sound_eq_sum(eq_point, cols, x.degree, x.gate, chals, 0, st1);
        let left = check_residues(f, x, chals);
        assert(eq_sum(eq_point, cols, x.gate, chals) == mle(left, eq_point)) by {
            lemma_sum_eq(
                len,
                |j: int| gate_value(x.gate, row_at(cols, j), chals) * eq_at(eq_point, j),
                |j: int| left[j] * eq_at(eq_point, j),
            );
        }
        if cong(0, mle(left, eq_point)) {
            law_nonzero(left, eq_point);
            if all_zero(left) {
                assert forall|j: int| 0 <= j < len implies cong(
                    gate_value(x.gate, #[trigger] row_at(cols, j), chals),
                    0,
                ) by {
                    assert(cong(left[j], 0));
                }
            }
        }
    }
}

proof fn lemma_checks(
    f: spec_fn(Tab) -> Seq<int>,
    g: spec_fn(Tab) -> Seq<int>,
    p: ProfileView,
    xs: Seq<CheckView>,
    chals: Seq<int>,
    v: CheckState,
    n: int,
    all: VerAcc,
)
    requires
        vectors_fit(f, p),
        forall|i: int| 0 <= i < xs.len() ==> check_wf(p, #[trigger] xs[i]),
        chals.len() == NUM_CHALLENGES,
        even(v.acc),
        bound_to(f, g, all),
        0 <= n <= xs.len(),
    ensures
        even(verify_checks(g, xs, chals, v, n).acc),
        verify_checks(g, xs, chals, v, n).st.ok ==> v.st.ok,
        starts(verify_checks(g, xs, chals, v, n).acc, all) && verify_checks(
            g,
            xs,
            chals,
            v,
            n,
        ).st.ok ==> forall|k: int|
            0 <= k < n ==> check_shown(
                f,
                #[trigger] xs[k],
                chals,
                verify_checks(g, xs, chals, v, k).st,
            ),
    decreases n,
{
    if n > 0 {
        lemma_checks(f, g, p, xs, chals, v, n - 1, all);
        assert(check_wf(p, xs[n - 1]));
        lemma_check(f, g, p, xs[n - 1], chals, verify_checks(g, xs, chals, v, n - 1), all);
    }
}

/// The value of an expression at congruent values.
proof fn lemma_lin_cong(l: LinView, u: spec_fn(Tab) -> int, v: spec_fn(Tab) -> int)
    requires
        forall|k: int|
            0 <= k < l.terms.len() ==> cong(u((#[trigger] l.terms[k]).1), v(l.terms[k].1)),
    ensures
        cong(lin_value(l, u), lin_value(l, v)),
{
    let a = |k: int| l.terms[k].0 * u(l.terms[k].1);
    let b = |k: int| l.terms[k].0 * v(l.terms[k].1);
    assert forall|k: int| 0 <= k < l.terms.len() implies cong(#[trigger] a(k), b(k)) by {
        let w = l.terms[k].0;
        lemma_cong_ops(w, w, u(l.terms[k].1), v(l.terms[k].1));
    }
    let n = l.terms.len() as int;
    lemma_sum_cong(n, a, b);
    lemma_cong_ops(l.constant, l.constant, sum_to(n, a), sum_to(n, b));
}

/// A sum of fractions that is checked fails to show its sum: a denominator is not
/// invertible, or one of the layers slips.
pub open spec fn block_fails(
    f: spec_fn(Tab) -> Seq<int>,
    b: BlockView,
    alpha: int,
    beta: int,
    st: State,
) -> bool {
    let num = numerators(f, b);
    let den = denominators(f, b, alpha, beta);
    let (c, start) = fractions_start(st);
    !all_units(den) || layers_slip(num, den, b.log_len, c, start)
}

/// The sum of fractions that a block stands for.
pub open spec fn block_total(
    f: spec_fn(Tab) -> Seq<int>,
    b: BlockView,
    alpha: int,
    beta: int,
) -> int {
    fraction_sum(numerators(f, b), denominators(f, b, alpha, beta))
}

#[verifier::rlimit(40)]
proof fn lemma_block(
    f: spec_fn(Tab) -> Seq<int>,
    g: spec_fn(Tab) -> Seq<int>,
    p: ProfileView,
    b: BlockView,
    alpha: int,
    beta: int,
    v: CheckState,
    all: VerAcc,
)
    requires
        vectors_fit(f, p),
        block_wf(p, b),
        even(v.acc),
        bound_to(f, g, all),
    ensures
        even(verify_block(g, b, alpha, beta, v).0.acc),
        verify_block(g, b, alpha, beta, v).0.st.ok ==> v.st.ok,
        starts(verify_block(g, b, alpha, beta, v).0.acc, all) ==> starts(v.acc, all),
        starts(verify_block(g, b, alpha, beta, v).0.acc, all) && verify_block(
            g,
            b,
            alpha,
            beta,
            v,
        ).0.st.ok ==> cong(
            verify_block(g, b, alpha, beta, v).1,
            block_total(f, b, alpha, beta),
        ) || block_fails(f, b, alpha, beta, v.st),
{
    reveal(verify_block);
    let log = b.log_len as nat;
    let tabs = tabs_of(b);
    let n = tabs.len() as int;
    let num = numerators(f, b);
    let den = denominators(f, b, alpha, beta);
    let (st1, sum, c) = verify_fractions(b.log_len, v.st);
    let (st2, opened) = read_fs(st1, num_committed(tabs, n));
    let vals = read_values(tabs, c.point, opened);
    let point = c.point;
    lemma_tabs_of(p, b);
    assert forall|k: int| 0 <= k < tabs.len() implies tab_ok(#[trigger] tabs[k]) by {
        assert(tab_wf(p, b.log_len, tabs[k]));
    }
    lemma_claimed(f, g, v.acc, tabs, point, vals, n, all);
    lemma_fractions_ok(b.log_len, v.st);
    lemma_fractions_len(b.log_len, v.st);
    let end = claimed_at(v.acc, g, tabs, point, vals, n);
    let look = |t: Tab| vals[place(tabs, t, 0)];
    let st3 = require(
        st2,
        cong(c.p, lin_value(b.num, look)) && cong(
            c.q,
            alpha + fingerprint(b.comps, look, beta),
        ),
    );
    if starts(end, all) && st3.ok && all_units(den) {
        let val = |t: Tab| tab_value(f, b.log_len as nat, point, t);
        assert forall|k: int| 0 <= k < n implies cong(
            #[trigger] vals[k],
            tab_value(f, log, point, tabs[k]),
        ) by {
            assert(tab_wf(p, b.log_len, tabs[k]));
            lemma_column_value(f, p, log, tabs[k], point);
        }
        assert forall|t: Tab| tabs.contains(t) implies cong(#[trigger] look(t), val(t)) by {
            lemma_place(tabs, t, 0);
            assert(cong(vals[place(tabs, t, 0)], tab_value(f, log, point, t)));
        }
        lemma_mle_block(f, p, b, alpha, beta, point);
        lemma_lin_cong(b.num, look, val);
        let x = |i: int| pow(beta, i as nat) * lin_value(b.comps[i], look);
        let y = |i: int| pow(beta, i as nat) * lin_value(b.comps[i], val);
        assert forall|i: int| 0 <= i < b.comps.len() implies cong(#[trigger] x(i), y(i)) by {
            assert(lin_covered(b.comps[i], tabs));
            lemma_lin_cong(b.comps[i], look, val);
            let w = pow(beta, i as nat);
            lemma_cong_ops(w, w, lin_value(b.comps[i], look), lin_value(b.comps[i], val));
        }
        let m = b.comps.len() as int;
        lemma_sum_cong(m, x, y);
        lemma_cong_ops(alpha, alpha, sum_to(m, x), sum_to(m, y));
        assert(layer_right(num, den, c));
        law_sound_fractions(num, den, log, v.st);
    }
}

/// Some of the first `n` sums of fractions fails to show its sum.
pub open spec fn blocks_fail(
    f: spec_fn(Tab) -> Seq<int>,
    g: spec_fn(Tab) -> Seq<int>,
    bs: Seq<BlockView>,
    alpha: int,
    beta: int,
    v: CheckState,
    n: int,
) -> bool
    decreases n,
{
    if n <= 0 {
        false
    } else {
        ||| blocks_fail(f, g, bs, alpha, beta, v, n - 1)
        ||| block_fails(
            f,
            bs[n - 1],
            alpha,
            beta,
            verify_blocks(g, bs, alpha, beta, v, n - 1).0.st,
        )
    }
}

/// The total of the first `n` sums of fractions.
pub open spec fn blocks_total(
    f: spec_fn(Tab) -> Seq<int>,
    bs: Seq<BlockView>,
    alpha: int,
    beta: int,
    n: int,
) -> int
    decreases n,
{
    if n <= 0 {
        0
    } else {
        blocks_total(f, bs, alpha, beta, n - 1) + block_total(f, bs[n - 1], alpha, beta)
    }
}

proof fn lemma_blocks(
    f: spec_fn(Tab) -> Seq<int>,
    g: spec_fn(Tab) -> Seq<int>,
    p: ProfileView,
    bs: Seq<BlockView>,
    alpha: int,
    beta: int,
    v: CheckState,
    n: int,
    all: VerAcc,
)
    requires
        vectors_fit(f, p),
        blocks_wf(p, bs),
        even(v.acc),
        bound_to(f, g, all),
        0 <= n <= bs.len(),
    ensures
        even(verify_blocks(g, bs, alpha, beta, v, n).0.acc),
        verify_blocks(g, bs, alpha, beta, v, n).0.st.ok ==> v.st.ok,
        starts(verify_blocks(g, bs, alpha, beta, v, n).0.acc, all) ==> starts(v.acc, all),
        starts(verify_blocks(g, bs, alpha, beta, v, n).0.acc, all) && verify_blocks(
            g,
            bs,
            alpha,
            beta,
            v,
            n,
        ).0.st.ok ==> cong(
            verify_blocks(g, bs, alpha, beta, v, n).1,
            blocks_total(f, bs, alpha, beta, n),
        ) || blocks_fail(f, g, bs, alpha, beta, v, n),
    decreases n,
{
    if n > 0 {
        lemma_blocks(f, g, p, bs, alpha, beta, v, n - 1, all);
        assert(block_wf(p, bs[n - 1]));
        let (w, sum) = verify_blocks(g, bs, alpha, beta, v, n - 1);
        lemma_block(f, g, p, bs[n - 1], alpha, beta, w, all);
        let here = verify_block(g, bs[n - 1], alpha, beta, w).1;
        let a = blocks_total(f, bs, alpha, beta, n - 1);
        let b = block_total(f, bs[n - 1], alpha, beta);
        if cong(sum, a) && cong(here, b) {
            lemma_cong_ops(sum, a, here, b);
        }
    }
}

/// The fractions of a block: the numerators, the denominators without the challenge that
/// shifts them, and the inverses of the denominators.
pub open spec fn block_shares(
    f: spec_fn(Tab) -> Seq<int>,
    b: BlockView,
    alpha: int,
    beta: int,
) -> Seq<Share> {
    let len = pow2(b.log_len as nat);
    Seq::new(
        len,
        |x: int|
            Share {
                weight: numerators(f, b)[x],
                value: fingerprint(b.comps, |t: Tab| column_of(f, t, len as int)[x], beta),
                inverse: inverse_of(denominators(f, b, alpha, beta)[x]),
            },
    )
}

/// The fractions of the first `n` blocks.
pub open spec fn side_shares(
    f: spec_fn(Tab) -> Seq<int>,
    bs: Seq<BlockView>,
    alpha: int,
    beta: int,
    n: int,
) -> Seq<Share>
    decreases n,
{
    if n <= 0 {
        Seq::empty()
    } else {
        side_shares(f, bs, alpha, beta, n - 1) + block_shares(f, bs[n - 1], alpha, beta)
    }
}

proof fn lemma_block_shares(f: spec_fn(Tab) -> Seq<int>, b: BlockView, alpha: int, beta: int)
    ensures
        shares_sum(block_shares(f, b, alpha, beta)) == block_total(f, b, alpha, beta),
        all_units(denominators(f, b, alpha, beta)) ==> inverted(
            block_shares(f, b, alpha, beta),
            alpha,
        ),
{
    let a = block_shares(f, b, alpha, beta);
    let num = numerators(f, b);
    let den = denominators(f, b, alpha, beta);
    let n = a.len() as int;
    lemma_shares_sum(a, n);
    assert(a.take(n) =~= a);
    lemma_sum_eq(
        n,
        |i: int| a[i].weight * a[i].inverse,
        |i: int| num[i] * inverse_of(den[i]),
    );
    if all_units(den) {
        assert forall|i: int| 0 <= i < a.len() implies cong(
            (alpha + (#[trigger] a[i]).value) * a[i].inverse,
            1,
        ) by {
            assert(alpha + a[i].value == den[i]);
            assert(invertible(den[i]));
            lemma_inverse_of(den[i]);
        }
    }
}

proof fn lemma_side_shares(
    f: spec_fn(Tab) -> Seq<int>,
    g: spec_fn(Tab) -> Seq<int>,
    bs: Seq<BlockView>,
    alpha: int,
    beta: int,
    v: CheckState,
    n: int,
)
    requires
        0 <= n <= bs.len(),
    ensures
        shares_sum(side_shares(f, bs, alpha, beta, n)) == blocks_total(f, bs, alpha, beta, n),
        !blocks_fail(f, g, bs, alpha, beta, v, n) ==> inverted(
            side_shares(f, bs, alpha, beta, n),
            alpha,
        ),
    decreases n,
{
    if n > 0 {
        lemma_side_shares(f, g, bs, alpha, beta, v, n - 1);
        lemma_block_shares(f, bs[n - 1], alpha, beta);
        lemma_shares_add(
            side_shares(f, bs, alpha, beta, n - 1),
            block_shares(f, bs[n - 1], alpha, beta),
            0,
            alpha,
        );
    }
}

/// On the two sides of an equality each value has the same weight, unless the challenge
/// hides it.
pub open spec fn sides_agree(
    f: spec_fn(Tab) -> Seq<int>,
    e: EqualityView,
    alpha: int,
    beta: int,
) -> bool {
    let left = side_shares(f, e.left, alpha, beta, e.left.len() as int);
    let right = side_shares(f, e.right, alpha, beta, e.right.len() as int);
    forall|x: int|
        cong(#[trigger] weight_of(left, x), weight_of(right, x)) || hidden(
            left + opposite(right),
            x,
            alpha,
        )
}

/// An equality shows that its two sides agree, unless a sum fails to show its own total.
#[verifier::opaque]
pub open spec fn equality_shown(
    f: spec_fn(Tab) -> Seq<int>,
    g: spec_fn(Tab) -> Seq<int>,
    e: EqualityView,
    v: CheckState,
) -> bool {
    let (st1, alpha) = challenge(v.st);
    let (st2, beta) = challenge(st1);
    let nl = e.left.len() as int;
    let nr = e.right.len() as int;
    let w = CheckState { st: st2, ..v };
    let v1 = verify_blocks(g, e.left, alpha, beta, w, nl).0;
    ||| sides_agree(f, e, alpha, beta)
    ||| blocks_fail(f, g, e.left, alpha, beta, w, nl)
    ||| blocks_fail(f, g, e.right, alpha, beta, v1, nr)
}

proof fn lemma_equality(
    f: spec_fn(Tab) -> Seq<int>,
    g: spec_fn(Tab) -> Seq<int>,
    p: ProfileView,
    e: EqualityView,
    v: CheckState,
    all: VerAcc,
)
    requires
        vectors_fit(f, p),
        equality_wf(p, e),
        even(v.acc),
        bound_to(f, g, all),
    ensures
        even(verify_equality(g, e, v).acc),
        verify_equality(g, e, v).st.ok ==> v.st.ok,
        starts(verify_equality(g, e, v).acc, all) ==> starts(v.acc, all),
        starts(verify_equality(g, e, v).acc, all) && verify_equality(g, e, v).st.ok
            ==> equality_shown(f, g, e, v),
{
    reveal(verify_equality);
    reveal(equality_shown);
    let (st1, alpha) = challenge(v.st);
    let (st2, beta) = challenge(st1);
    let nl = e.left.len() as int;
    let nr = e.right.len() as int;
    let w = CheckState { st: st2, ..v };
    let (v1, left) = verify_blocks(g, e.left, alpha, beta, w, nl);
    lemma_blocks(f, g, p, e.left, alpha, beta, w, nl, all);
    lemma_blocks(f, g, p, e.right, alpha, beta, v1, nr, all);
    lemma_side_shares(f, g, e.left, alpha, beta, w, nl);
    lemma_side_shares(f, g, e.right, alpha, beta, v1, nr);
    let a = side_shares(f, e.left, alpha, beta, nl);
    let b = side_shares(f, e.right, alpha, beta, nr);
    if inverted(a, alpha) && inverted(b, alpha) && cong(shares_sum(a), shares_sum(b)) {
        assert forall|x: int|
            cong(#[trigger] weight_of(a, x), weight_of(b, x)) || hidden(
                a + opposite(b),
                x,
                alpha,
            ) by {
            law_same_weights(a, b, x, alpha);
        }
    }
}

proof fn lemma_equalities(
    f: spec_fn(Tab) -> Seq<int>,
    g: spec_fn(Tab) -> Seq<int>,
    p: ProfileView,
    es: Seq<EqualityView>,
    v: CheckState,
    n: int,
    all: VerAcc,
)
    requires
        vectors_fit(f, p),
        forall|i: int| 0 <= i < es.len() ==> equality_wf(p, #[trigger] es[i]),
        even(v.acc),
        bound_to(f, g, all),
        0 <= n <= es.len(),
    ensures
        even(verify_equalities(g, es, v, n).acc),
        verify_equalities(g, es, v, n).st.ok ==> v.st.ok,
        starts(verify_equalities(g, es, v, n).acc, all) ==> starts(v.acc, all),
        starts(verify_equalities(g, es, v, n).acc, all) && verify_equalities(g, es, v, n).st.ok
            ==> forall|k: int|
            0 <= k < n ==> equality_shown(
                f,
                g,
                #[trigger] es[k],
                verify_equalities(g, es, v, k),
            ),
    decreases n,
{
    if n > 0 {
        lemma_equalities(f, g, p, es, v, n - 1, all);
        assert(equality_wf(p, es[n - 1]));
        lemma_equality(f, g, p, es[n - 1], verify_equalities(g, es, v, n - 1), all);
    }
}

proof fn lemma_boundary_claims(
    f: spec_fn(Tab) -> Seq<int>,
    g: spec_fn(Tab) -> Seq<int>,
    p: ProfileView,
    a: VerAcc,
    n: int,
    all: VerAcc,
)
    requires
        even(a),
        0 <= n <= num_boundaries(),
    ensures
        even(claimed_boundaries(a, g, p, n)),
        bound_to(f, g, all) && starts(claimed_boundaries(a, g, p, n), all) ==> starts(a, all)
            && forall|k: int|
            0 <= k < n ==> {
                let b = #[trigger] boundary_of(p, k);
                cong(b.value, mle(f(b.tab), b.point))
            },
    decreases n,
{
    if n > 0 {
        lemma_boundary_claims(f, g, p, a, n - 1, all);
        let w = claimed_boundaries(a, g, p, n - 1);
        let b = boundary_of(p, n - 1);
        if bound_to(f, g, all) && starts(claimed_boundaries(a, g, p, n), all) {
            assert(tab_ok(b.tab) && b.tab.committed());
            lemma_claim(f, g, w, b.tab, b.point, b.value, all);
        }
    }
}

/// The state of the check of a certificate before its rules.
pub open spec fn rules_start(st: State) -> CheckState {
    CheckState {
        st: challenges(st, NUM_CHALLENGES as int).0,
        acc: VerAcc { commits: Seq::empty(), points: Seq::empty(), values: Seq::empty() },
    }
}

/// The state of the check of a certificate after its zero checks.
pub open spec fn rules_middle(
    g: spec_fn(Tab) -> Seq<int>,
    p: ProfileView,
    st: State,
) -> CheckState {
    let xs = zero_checks_of(p);
    let chals = challenges(st, NUM_CHALLENGES as int).1;
    verify_checks(g, xs, chals, rules_start(st), xs.len() as int)
}

/// The state of the check of a certificate after its equalities.
pub open spec fn rules_end(g: spec_fn(Tab) -> Seq<int>, p: ProfileView, st: State) -> CheckState {
    let es = equalities_of(p);
    verify_equalities(g, es, rules_middle(g, p, st), es.len() as int)
}

/// What an accepted certificate shows about vectors that its claims are right of: the
/// counters begin and end where the profile says; each zero check holds, unless messages of
/// a round that differ meet or a challenge makes what is left vanish; and the two sides of
/// each equality hold each value with the same weight, unless the challenge hides it, a
/// denominator is not invertible or a layer of a sum slips. The joint opening of the claims is
/// accepted.
pub proof fn law_certified(
    vp: VerParams,
    f: spec_fn(Tab) -> Seq<int>,
    g: spec_fn(Tab) -> Seq<int>,
    p: ProfileView,
    st: State,
)
    requires
        profile_fits(p),
        vectors_fit(f, p),
        verify_rules(vp, g, p, st).ok,
        bound_to(f, g, claimed_boundaries(rules_end(g, p, st).acc, g, p, num_boundaries())),
    ensures
        st.ok,
        boundaries_hold(f, p),
        ({
            let xs = zero_checks_of(p);
            let es = equalities_of(p);
            let chals = challenges(st, NUM_CHALLENGES as int).1;
            let v1 = rules_middle(g, p, st);
            let v2 = rules_end(g, p, st);
            &&& forall|k: int|
                0 <= k < xs.len() ==> check_shown(
                    f,
                    #[trigger] xs[k],
                    chals,
                    verify_checks(g, xs, chals, rules_start(st), k).st,
                )
            &&& forall|k: int|
                0 <= k < es.len() ==> equality_shown(
                    f,
                    g,
                    #[trigger] es[k],
                    verify_equalities(g, es, v1, k),
                )
            &&& verify_batch(
                trimmed_ver(vp, p),
                claimed_boundaries(v2.acc, g, p, num_boundaries()),
                v2.st,
            ).ok
        }),
{
    reveal(verify_rules);
    let xs = zero_checks_of(p);
    let es = equalities_of(p);
    let chals = challenges(st, NUM_CHALLENGES as int).1;
    let v = rules_start(st);
    let v1 = rules_middle(g, p, st);
    let v2 = rules_end(g, p, st);
    let all = claimed_boundaries(v2.acc, g, p, num_boundaries());
    lemma_checks_wf(p);
    lemma_equalities_wf(p);
    lemma_batch_ok(trimmed_ver(vp, p), all, v2.st);
    lemma_checks(f, g, p, xs, chals, v, xs.len() as int, all);
    lemma_equalities(f, g, p, es, v1, es.len() as int, all);
    lemma_boundary_claims(f, g, p, v2.acc, num_boundaries(), all);
    assert(starts(all, all));
}

} // verus!
