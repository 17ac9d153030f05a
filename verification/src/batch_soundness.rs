//! What a wrong claim needs to pass a joint opening.
use vstd::prelude::*;
use vstd::arithmetic::power::*;
use vstd::arithmetic::power2::*;
use crate::batch_openings::{
    law_combine, lemma_batch_gate_degree, lemma_batch_sum, lemma_batch_vars_points, lemma_horner,
    lemma_mle_combine, lemma_parabola, points_fit,
};
use crate::channel::{State, challenge, require};
use crate::field::{cong, invertible, lemma_cong_ops};
use crate::interpolation::psum;
use crate::kzg::{
    batch_gate, batch_open_of, batch_rounds, batch_tables, batch_verify_of, batch_weights, combine,
    combine_commits, commit_of, horner, lemma_batch_gate_fits, lemma_batch_gate_value,
    lemma_batch_vars, lemma_max_len, lemma_max_len_bound, max_len, parabola, powers, resized,
    srs_of, ver_params_of, verifier_weights, verify_of,
};
use crate::openings::law_open_only;
use crate::poly::{at, eq_at, fold, law_eq_of_eq, lemma_mle_fold, lemma_mle_pad, min, mle};
use crate::refusal::lemma_batch_rounds_ok;
use crate::replay::{
    lemma_round_fold, lemma_round_halves, lemma_round_poly, line_poly, row_at, row_value, whole_sum,
};
use crate::soundness::{all_zero, same_message};
use crate::sumcheck::{
    Gate, fold_tables, gate_degree, gate_fits, gate_value, lemma_log2_ceil, log2_ceil,
    round_message, same_len, values_at,
};
use crate::sums::{lemma_pow2_mono, lemma_pow2_step, lemma_sum_eq, lemma_sum_sub, sum_to};

verus! {

/// In some round of a joint opening another message is there than the one for the tables,
/// and the challenge is one at which the parabolas of the two meet.
pub open spec fn batch_met(
    sc: Seq<int>,
    i: int,
    nv: int,
    ch: Seq<int>,
    g: Gate,
    coins: Seq<int>,
    tabs: Seq<Seq<int>>,
    len: int,
) -> bool
    decreases nv - i,
{
    if i >= nv {
        false
    } else {
        let s = seq![at(sc, 3 * i), at(sc, 3 * i + 1), at(sc, 3 * i + 2)];
        let right = round_message(g, coins, tabs, len, 2);
        let x = ch[0];
        ||| !same_message(s, right, 2) && cong(
            parabola(s[0], s[1], s[2], x),
            parabola(right[0], right[1], right[2], x),
        )
        ||| batch_met(
            sc,
            i + 1,
            nv,
            ch.drop_first(),
            g,
            coins,
            fold_tables(tabs, x),
            (len + 1) / 2,
        )
    }
}

/// The rounds of an accepted joint opening used a challenge each.
proof fn lemma_batch_point(sc: Seq<int>, i: int, nv: int, y: int, st: State)
    requires
        i <= nv,
        batch_rounds(sc, i, nv, y, st).2.ok,
    ensures
        st.ch.len() >= nv - i,
        batch_rounds(sc, i, nv, y, st).0 == st.ch.take(nv - i),
    decreases nv - i,
{
    if i < nv {
        let s0 = at(sc, 3 * i);
        let s1 = at(sc, 3 * i + 1);
        let s2 = at(sc, 3 * i + 2);
        let st1 = require(st, cong(s0 + s1, y));
        let (st2, c) = challenge(st1);
        let next = parabola(s0, s1, s2, c);
        lemma_batch_point(sc, i + 1, nv, next, st2);
        lemma_batch_rounds_ok(sc, i + 1, nv, next, st2);
        assert(seq![c] + st2.ch.take(nv - i - 1) =~= st.ch.take(nv - i));
    } else {
        assert(st.ch.take(0) =~= Seq::<int>::empty());
    }
}

/// The rounds of a joint opening that are accepted, and leave a right claim, started with
/// the right sum, unless in some round messages that differ meet at the challenge.
proof fn lemma_sound_batch_rounds(
    g: Gate,
    coins: Seq<int>,
    tabs: Seq<Seq<int>>,
    sc: Seq<int>,
    i: int,
    nv: int,
    y: int,
    st: State,
)
    requires
        gate_fits(g, tabs.len(), coins.len()),
        gate_degree(g) <= 2,
        0 <= i <= nv,
        same_len(tabs, pow2((nv - i) as nat) as int),
        ({
            let (p, last, end) = batch_rounds(sc, i, nv, y, st);
            end.ok && cong(last, gate_value(g, values_at(tabs, p), coins))
        }),
    ensures
        cong(y, whole_sum(g, coins, tabs, pow2((nv - i) as nat) as int)) || batch_met(
            sc,
            i,
            nv,
            st.ch,
            g,
            coins,
            tabs,
            pow2((nv - i) as nat) as int,
        ),
    decreases nv - i,
{
    let n = nv - i;
    let len = pow2(n as nat) as int;
    if n == 0 {
        lemma_pow2_step(0);
        let p = Seq::<int>::empty();
        let w = |j: int| row_value(g, coins, tabs, j);
        reveal_with_fuel(sum_to, 2);
        assert(sum_to(1, w) == w(0));
        assert(row_at(tabs, 0) =~= values_at(tabs, p)) by {
            assert forall|t: int| 0 <= t < tabs.len() implies row_at(tabs, 0)[t] == values_at(
                tabs,
                p,
            )[t] by {
                assert(tabs[t].len() == 1);
                crate::poly::lemma_mle_constant(tabs[t]);
            }
        }
    } else {
        let s = seq![at(sc, 3 * i), at(sc, 3 * i + 1), at(sc, 3 * i + 2)];
        let st1 = require(st, cong(s[0] + s[1], y));
        let (st2, x) = challenge(st1);
        let next = parabola(s[0], s[1], s[2], x);
        let (p, last, end) = batch_rounds(sc, i + 1, nv, next, st2);
        let point = seq![x] + p;
        assert(batch_rounds(sc, i, nv, y, st) == (point, last, end));
        lemma_batch_rounds_ok(sc, i + 1, nv, next, st2);
        assert(st2.ok);
        assert(x == st.ch[0] && st2.ch == st.ch.drop_first());
        let m = (len + 1) / 2;
        lemma_pow2_step((n - 1) as nat);
        assert(m == pow2((n - 1) as nat));
        let tabs1 = fold_tables(tabs, x);
        assert(values_at(tabs, point) =~= values_at(tabs1, p)) by {
            assert(point.drop_first() =~= p);
            assert forall|t: int| 0 <= t < tabs.len() implies values_at(tabs, point)[t]
                == values_at(tabs1, p)[t] by {
                lemma_mle_fold(tabs[t], point);
                assert(tabs1[t] == fold(tabs[t], x));
            }
        }
        assert(same_len(tabs1, m)) by {
            assert forall|t: int| 0 <= t < tabs1.len() implies (#[trigger] tabs1[t]).len()
                == m by {
                assert(tabs[t].len() == len);
            }
        }
        lemma_round_halves(g, coins, tabs, len);
        lemma_round_fold(g, coins, tabs, len, x);
        lemma_sound_batch_rounds(g, coins, tabs1, sc, i + 1, nv, next, st2);
        let right = round_message(g, coins, tabs, len, 2);
        let c = psum(m, |j: int| line_poly(g, coins, tabs, j));
        lemma_round_poly(g, coins, tabs, len, 2, 0);
        lemma_round_poly(g, coins, tabs, len, 2, 1);
        lemma_round_poly(g, coins, tabs, len, 2, 2);
        lemma_round_poly(g, coins, tabs, len, 2, x);
        lemma_parabola(c, x);
        if same_message(s, right, 2) {
            assert(cong(s[0], right[0]) && cong(s[1], right[1]));
            lemma_cong_ops(s[0], right[0], s[1], right[1]);
        }
    }
}

/// How far claimed values are from those of the polynomials at their points.
pub open spec fn claim_errors(
    polys: Seq<Seq<int>>,
    pts: Seq<Seq<int>>,
    vals: Seq<int>,
) -> Seq<int> {
    Seq::new(polys.len(), |i: int| vals[i] - mle(polys[i], pts[i]))
}

/// The challenge that joins the claims is a root of the polynomial that has their errors
/// for coefficients, the first at the highest power.
pub open spec fn joined_away(errors: Seq<int>, r: int) -> bool {
    &&& !all_zero(errors)
    &&& cong(
        sum_to(
            errors.len() as int,
            |i: int| pow(r, (errors.len() - 1 - i) as nat) * errors[i],
        ),
        0,
    )
}

/// There are as many values and points as polynomials, and each point has a coordinate for
/// each variable of its polynomial.
pub open spec fn claims_shaped(
    polys: Seq<Seq<int>>,
    pts: Seq<Seq<int>>,
    vals: Seq<int>,
) -> bool {
    &&& polys.len() == pts.len()
    &&& polys.len() == vals.len()
    &&& forall|i: int|
        0 <= i < polys.len() ==> {
            &&& 0 < (#[trigger] polys[i]).len()
            &&& log2_ceil(polys[i].len() as int) <= pts[i].len()
        }
}

proof fn lemma_fit(polys: Seq<Seq<int>>, pts: Seq<Seq<int>>, vals: Seq<int>)
    requires
        claims_shaped(polys, pts, vals),
    ensures
        points_fit(polys, pts, max_len(pts, pts.len() as int)),
{
    let k = pts.len() as int;
    let nv = max_len(pts, k);
    assert forall|i: int| 0 <= i < polys.len() implies pts[i].len() <= nv by {
        lemma_max_len(pts, k, i);
    }
    assert forall|i: int| 0 <= i < polys.len() implies (#[trigger] polys[i]).len() <= pow2(
        pts[i].len(),
    ) by {
        lemma_log2_ceil(polys[i].len() as int);
        lemma_pow2_mono(log2_ceil(polys[i].len() as int), pts[i].len());
    }
    assert forall|i: int| 0 <= i < polys.len() implies pts[i].len() <= nv && (
    #[trigger] polys[i]).len() <= pow2(pts[i].len()) by {
        assert(pts[i].len() <= nv);
    }
}

/// The claim that the rounds of a joint opening leave on the weighted sum of the
/// polynomials.
pub open spec fn last_claim(pts: Seq<Seq<int>>, vals: Seq<int>, sc: Seq<int>, st: State) -> int {
    let nv = max_len(pts, pts.len() as int);
    let (st1, r) = challenge(st);
    let st2 = require(st1, sc.len() >= 3 * nv);
    batch_rounds(sc, 0, nv, horner(vals, r), st2).1
}

/// A joint opening that is accepted, and leaves a right claim on the weighted sum of the
/// polynomials, was of right claims: each claimed value is that of its polynomial at its
/// point; unless the challenge that joins the claims makes their errors cancel, or in some
/// round messages that differ meet at the challenge.
#[verifier::rlimit(60)]
pub proof fn law_sound_joint(
    vp: crate::kzg::VerParams,
    polys: Seq<Seq<int>>,
    pts: Seq<Seq<int>>,
    vals: Seq<int>,
    comms: Seq<Seq<int>>,
    proof_points: Seq<int>,
    sc: Seq<int>,
    st: State,
)
    requires
        0 < polys.len(),
        2 * polys.len() <= usize::MAX,
        claims_shaped(polys, pts, vals),
        batch_verify_of(vp, pts, comms, vals, proof_points, sc, st).ok,
        ({
            let nv = max_len(pts, pts.len() as int);
            let rp = st.ch.subrange(1, 1 + nv);
            cong(
                last_claim(pts, vals, sc, st),
                mle(combine(polys, batch_weights(pts, nv, st.ch[0], rp)), rp),
            )
        }),
    ensures
        st.ok,
        sc.len() >= 3 * max_len(pts, pts.len() as int),
        st.ch.len() > max_len(pts, pts.len() as int),
        ({
            let nv = max_len(pts, pts.len() as int);
            let k = polys.len() as int;
            let r = st.ch[0];
            ||| forall|i: int|
                0 <= i < polys.len() ==> cong(vals[i], mle(#[trigger] polys[i], pts[i]))
            ||| joined_away(claim_errors(polys, pts, vals), r)
            ||| batch_met(
                sc,
                0,
                nv,
                st.ch.drop_first(),
                batch_gate(k, k),
                powers(r, k),
                batch_tables(polys, pts, nv),
                pow2(nv as nat) as int,
            )
        }),
{
    let k = polys.len() as int;
    assert forall|i: int| 0 <= i < k implies log2_ceil((#[trigger] polys[i]).len() as int)
        <= pts[i].len() by {}
    lemma_batch_vars_points(polys, pts, k);
    let nv = max_len(pts, k);
    let (st1, r) = challenge(st);
    let st2 = require(st1, sc.len() >= 3 * nv);
    let y0 = horner(vals, r);
    let (p, y, st3) = batch_rounds(sc, 0, nv, y0, st2);
    lemma_batch_rounds_ok(sc, 0, nv, y0, st2);
    lemma_batch_point(sc, 0, nv, y0, st2);
    assert(st.ok && st.ch.len() > 0);
    assert(st2.ch == st.ch.drop_first());
    let rp = st.ch.subrange(1, 1 + nv);
    assert(p =~= rp);
    let gate = batch_gate(k, k);
    let coins = powers(r, k);
    let tabs = batch_tables(polys, pts, nv);
    let n = pow2(nv as nat) as int;
    lemma_batch_gate_fits(k, k);
    lemma_batch_gate_degree(k, k);
    lemma_fit(polys, pts, vals);
    lemma_batch_sum(polys, pts, nv, coins);
    let w = batch_weights(pts, nv, r, rp);
    lemma_joint_value(polys, pts, nv, r, rp);
    lemma_sound_batch_rounds(gate, coins, tabs, sc, 0, nv, y0, st2);
    if cong(y0, whole_sum(gate, coins, tabs, n)) {
        lemma_horner(vals, r);
        let a = |i: int| coins[i] * vals[i];
        let b = |i: int| coins[i] * mle(polys[i], pts[i]);
        let errors = claim_errors(polys, pts, vals);
        let e = |i: int| pow(r, (errors.len() - 1 - i) as nat) * errors[i];
        let ab = |i: int| a(i) - b(i);
        assert forall|i: int| 0 <= i < k implies #[trigger] e(i) == ab(i) by {
            let c = coins[i];
            let u = vals[i];
            let v = mle(polys[i], pts[i]);
            assert(c * (u - v) == c * u - c * v) by (nonlinear_arith);
        }
        lemma_sum_eq(k, e, ab);
        lemma_sum_sub(k, a, b);
        lemma_cong_ops(y0, sum_to(k, b), sum_to(k, b), sum_to(k, b));
        assert(cong(sum_to(k, e), 0));
        if all_zero(errors) {
            assert forall|i: int| 0 <= i < polys.len() implies cong(
                vals[i],
                mle(#[trigger] polys[i], pts[i]),
            ) by {
                let v = mle(polys[i], pts[i]);
                assert(cong(errors[i], 0));
                lemma_cong_ops(errors[i], 0, v, v);
            }
        }
    }
}

/// The weighted sum of the polynomials has the value of the expression of the rounds.
proof fn lemma_joint_value(
    polys: Seq<Seq<int>>,
    pts: Seq<Seq<int>>,
    nv: int,
    r: int,
    rp: Seq<int>,
)
    requires
        polys.len() == pts.len(),
        2 * polys.len() <= usize::MAX,
        nv >= 0,
        rp.len() == nv,
        points_fit(polys, pts, nv),
    ensures
        gate_value(
            batch_gate(polys.len() as int, polys.len() as int),
            values_at(batch_tables(polys, pts, nv), rp),
            powers(r, polys.len() as int),
        ) == mle(combine(polys, batch_weights(pts, nv, r, rp)), rp),
{
    let k = polys.len() as int;
    let n = pow2(nv as nat) as int;
    let coins = powers(r, k);
    let tabs = batch_tables(polys, pts, nv);
    let w = batch_weights(pts, nv, r, rp);
    let v = values_at(tabs, rp);
    lemma_batch_gate_value(k, k, v, coins);
    lemma_mle_combine(polys, w, rp);
    let c = |i: int| coins[i] * (v[i] * v[k + i]);
    let d = |i: int| w[i] * mle(polys[i], rp);
    assert forall|i: int| 0 <= i < k implies #[trigger] c(i) == d(i) by {
        assert(tabs[i] == resized(polys[i], n));
        assert(polys[i].len() <= pow2(pts[i].len()));
        lemma_pow2_mono(pts[i].len(), nv as nat);
        lemma_mle_pad(polys[i], tabs[i], rp);
        assert(v[i] == mle(polys[i], rp));
        assert(v[k + i] == mle(tabs[k + i], rp));
        assert(tabs[k + i] =~= Seq::new(pow2(nv as nat), |j: int| eq_at(resized(pts[i], nv), j)));
        let x = coins[i];
        let y1 = v[i];
        let z = v[k + i];
        assert(x * (y1 * z) == (x * z) * y1) by (nonlinear_arith);
    }
    lemma_sum_eq(k, c, d);
}

/// With invertible bases, the joint opening of polynomials is accepted, with whatever
/// messages for its rounds, only for right claims: each claimed value is that of its
/// polynomial at its point; unless the challenge that joins the claims makes their errors
/// cancel, or in some round messages that differ meet at the challenge.
#[verifier::rlimit(40)]
pub proof fn law_batch_open_only(
    g: int,
    h: int,
    tau: Seq<int>,
    polys: Seq<Seq<int>>,
    pts: Seq<Seq<int>>,
    vals: Seq<int>,
    comms: Seq<Seq<int>>,
    sc: Seq<int>,
    st: State,
)
    requires
        0 < polys.len(),
        2 * polys.len() <= usize::MAX,
        invertible(g),
        invertible(h),
        claims_shaped(polys, pts, vals),
        comms.len() == polys.len(),
        forall|i: int|
            0 <= i < polys.len() ==> #[trigger] comms[i] == commit_of(srs_of(g, tau), polys[i]),
        batch_verify_of(
            ver_params_of(g, h, tau),
            pts,
            comms,
            vals,
            batch_open_of(srs_of(g, tau), polys, pts, st.ch).0,
            sc,
            st,
        ).ok,
    ensures
        st.ok,
        sc.len() >= 3 * max_len(pts, pts.len() as int),
        ({
            let nv = max_len(pts, pts.len() as int);
            let k = polys.len() as int;
            let r = st.ch[0];
            ||| forall|i: int|
                0 <= i < polys.len() ==> cong(vals[i], mle(#[trigger] polys[i], pts[i]))
            ||| joined_away(claim_errors(polys, pts, vals), r)
            ||| batch_met(
                sc,
                0,
                nv,
                st.ch.drop_first(),
                batch_gate(k, k),
                powers(r, k),
                batch_tables(polys, pts, nv),
                pow2(nv as nat) as int,
            )
        }),
{
    let k = polys.len() as int;
    let srs = srs_of(g, tau);
    let vp = ver_params_of(g, h, tau);
    lemma_pow2_step(tau.len());
    assert forall|i: int| 0 <= i < k implies log2_ceil((#[trigger] polys[i]).len() as int)
        <= pts[i].len() by {}
    lemma_batch_vars_points(polys, pts, k);
    let nv = max_len(pts, k);
    let proof_points = batch_open_of(srs, polys, pts, st.ch).0;
    let (st1, r) = challenge(st);
    let st2 = require(st1, sc.len() >= 3 * nv);
    let y0 = horner(vals, r);
    let (p, y, st3) = batch_rounds(sc, 0, nv, y0, st2);
    lemma_batch_rounds_ok(sc, 0, nv, y0, st2);
    lemma_batch_point(sc, 0, nv, y0, st2);
    let rp = st.ch.subrange(1, 1 + nv);
    assert(p =~= rp);
    let w = batch_weights(pts, nv, r, rp);
    let w2 = verifier_weights(pts, nv, r, rp);
    assert(min(nv, rp.len() as int) == nv);
    assert(w =~= w2) by {
        assert forall|i: int| 0 <= i < k implies w[i] == w2[i] by {
            lemma_max_len(pts, k, i);
            law_eq_of_eq(resized(pts[i], nv), rp);
        }
    }
    law_combine(srs, polys, comms, w);
    let f = combine(polys, w);
    let n = pow2(nv as nat) as int;
    assert forall|i: int| 0 <= i < k implies (#[trigger] polys[i]).len() <= n by {
        lemma_batch_vars(polys, pts, k, i);
        lemma_log2_ceil(polys[i].len() as int);
        lemma_pow2_mono(log2_ceil(polys[i].len() as int), nv as nat);
    }
    lemma_max_len_bound(polys, k, n);
    lemma_max_len(polys, k, 0);
    assert(0 < polys[0].len());
    assert(verify_of(vp, rp, combine_commits(comms, w), y, proof_points));
    assert(vp.params.len() == tau.len());
    law_open_only(g, h, tau, f, rp, y);
    law_sound_joint(vp, polys, pts, vals, comms, proof_points, sc, st);
}

} // verus!
