//! Joint openings of commitments are accepted.
use vstd::prelude::*;
use vstd::arithmetic::power::*;
use vstd::arithmetic::power2::*;
use crate::channel::{State, challenge, require};
use crate::field::{cong, inverse_of, lemma_cong_ops, lemma_inverse_of};
use crate::interpolation::{lemma_sum_cong, peval, psum};
use crate::kzg::{
    batch_gate, batch_open_of, batch_rounds, batch_tables, batch_vars, batch_verify_of,
    batch_weights, combine, combine_commits, commit_of, horner, lemma_batch_gate_fits,
    lemma_batch_gate_value, lemma_batch_vars, lemma_max_len, lemma_max_len_bound, max_len,
    num_chunks, openable, parabola, powers, resized, srs_of, ver_params_of, verifier_weights,
};
use crate::openings::{
    chunk_value, law_open, lemma_chunk_outside, lemma_commit_chunks, lemma_mle_longer,
    lemma_num_chunks,
};
use crate::poly::{at, eq_at, fold, law_eq_of_eq, lemma_mle_fold, lemma_mle_pad, min, mle};
use crate::replay::{
    lemma_round_fold, lemma_round_halves, lemma_round_poly, line_poly, row_at, row_value, whole_sum,
};
use crate::sumcheck::{
    Gate, fold_tables, gate_degree, gate_fits, gate_value, lemma_log2_ceil, log2_ceil, messages,
    round_message, same_len, values_at,
};
use crate::sums::{
    lemma_pow2_mono, lemma_pow2_step, lemma_sum_eq, lemma_sum_extend, lemma_sum_scale,
    lemma_sum_swap, sum_to,
};
use crate::units::law_word_invertible;

verus! {

/// Three values give a parabola everywhere.
pub proof fn lemma_parabola(c: Seq<int>, x: int)
    requires
        c.len() <= 3,
    ensures
        cong(parabola(peval(c, 0), peval(c, 1), peval(c, 2), x), peval(c, x)),
{
    law_word_invertible(2);
    lemma_inverse_of(2);
    let h = inverse_of(2);
    let c0 = at(c, 0);
    let c1 = at(c, 1);
    let c2 = at(c, 2);
    assert forall|y: int| #[trigger] peval(c, y) == c0 + y * (c1 + y * c2) by {
        lemma_peval_small(c, y);
    }
    let s0 = peval(c, 0);
    let s1 = peval(c, 1);
    let s2 = peval(c, 2);
    assert(s0 == c0);
    assert(s1 == c0 + c1 + c2);
    assert(s2 == c0 + 2 * c1 + 4 * c2);
    let a = -(h * 3) * s0 + s1 + s1 - h * s2;
    let b = h * s0 - s1 + h * s2;
    let e = 2 * h - 1;
    let ka = -2 * c0 - c1 - 2 * c2;
    let kb = c0 + c1 + 2 * c2;
    assert(a == c1 + e * ka) by (nonlinear_arith)
        requires
            s0 == c0,
            s1 == c0 + c1 + c2,
            s2 == c0 + 2 * c1 + 4 * c2,
            a == -(h * 3) * s0 + s1 + s1 - h * s2,
            e == 2 * h - 1,
            ka == -2 * c0 - c1 - 2 * c2,
    ;
    assert(b == c2 + e * kb) by (nonlinear_arith)
        requires
            s0 == c0,
            s1 == c0 + c1 + c2,
            s2 == c0 + 2 * c1 + 4 * c2,
            b == h * s0 - s1 + h * s2,
            e == 2 * h - 1,
            kb == c0 + c1 + 2 * c2,
    ;
    let k = x * ka + x * x * kb;
    assert(s0 + x * a + x * x * b == (c0 + x * (c1 + x * c2)) + e * k) by (nonlinear_arith)
        requires
            s0 == c0,
            a == c1 + e * ka,
            b == c2 + e * kb,
            k == x * ka + x * x * kb,
    ;
    assert(2 * h == h * 2) by (nonlinear_arith);
    lemma_cong_ops(2 * h, 1, 1, 1);
    assert(cong(e, 0));
    lemma_cong_ops(e, 0, k, k);
    assert(0 * k == 0);
    let p = peval(c, x);
    lemma_cong_ops(p, p, e * k, 0);
}

proof fn lemma_peval_small(c: Seq<int>, y: int)
    requires
        c.len() <= 3,
    ensures
        peval(c, y) == at(c, 0) + y * (at(c, 1) + y * at(c, 2)),
{
    reveal_with_fuel(peval, 4);
    assert(y * 0 == 0);
    assert(y * (0 + y * 0) == 0);
    if c.len() >= 1 {
        let d = c.drop_first();
        if c.len() >= 2 {
            assert(d[0] == c[1]);
            let e = d.drop_first();
            if c.len() >= 3 {
                assert(e[0] == c[2]);
                assert(e.drop_first().len() == 0);
                assert(y * (c[2] + 0) == y * c[2]);
            }
        }
    }
}

/// As many messages as rounds, with one more value than the degree each.
pub proof fn lemma_messages_len(
    g: Gate,
    coins: Seq<int>,
    tabs: Seq<Seq<int>>,
    len: int,
    degree: int,
    rs: Seq<int>,
)
    requires
        degree >= 0,
    ensures
        messages(g, coins, tabs, len, degree, rs).len() == (degree + 1) * rs.len(),
    decreases rs.len(),
{
    if rs.len() > 0 {
        lemma_messages_len(
            g,
            coins,
            fold_tables(tabs, rs[0]),
            (len + 1) / 2,
            degree,
            rs.drop_first(),
        );
        let n = rs.len();
        assert((degree + 1) + (degree + 1) * (n - 1) == (degree + 1) * n) by (nonlinear_arith);
    } else {
        assert((degree + 1) * 0 == 0);
    }
}

/// The rounds of a joint opening are accepted.
proof fn lemma_batch_rounds(
    g: Gate,
    coins: Seq<int>,
    tabs: Seq<Seq<int>>,
    sc: Seq<int>,
    i: int,
    nv: int,
    y: int,
    st: State,
)
    requires
        gate_fits(g, tabs.len(), coins.len()),
        gate_degree(g) <= 2,
        0 <= i <= nv,
        st.ok,
        st.ch.len() >= nv - i,
        same_len(tabs, pow2((nv - i) as nat) as int),
        3 * i <= sc.len(),
        sc.skip(3 * i) == messages(
            g,
            coins,
            tabs,
            pow2((nv - i) as nat) as int,
            2,
            st.ch.take(nv - i),
        ),
        cong(y, whole_sum(g, coins, tabs, pow2((nv - i) as nat) as int)),
    ensures
        ({
            let (p, last, end) = batch_rounds(sc, i, nv, y, st);
            &&& p == st.ch.take(nv - i)
            &&& cong(last, gate_value(g, values_at(tabs, p), coins))
            &&& end == (State { ch: st.ch.skip(nv - i), ..st })
        }),
    decreases nv - i,
{
    let n = nv - i;
    let rs = st.ch.take(n);
    let len = pow2(n as nat) as int;
    if n == 0 {
        lemma_pow2_step(0);
        assert(rs =~= Seq::<int>::empty());
        assert(st.ch.skip(0) =~= st.ch);
        let w = |j: int| row_value(g, coins, tabs, j);
        reveal_with_fuel(sum_to, 2);
        assert(sum_to(1, w) == w(0));
        assert(row_at(tabs, 0) =~= values_at(tabs, rs)) by {
            assert forall|t: int| 0 <= t < tabs.len() implies row_at(tabs, 0)[t] == values_at(
                tabs,
                rs,
            )[t] by {
                assert(tabs[t].len() == 1);
                crate::poly::lemma_mle_constant(tabs[t]);
            }
        }
    } else {
        let r = rs[0];
        let m = (len + 1) / 2;
        lemma_pow2_step((n - 1) as nat);
        assert(m == pow2((n - 1) as nat));
        let next = fold_tables(tabs, r);
        let msg = round_message(g, coins, tabs, len, 2);
        let rest = rs.drop_first();
        let more = messages(g, coins, next, m, 2, rest);
        let tail = sc.skip(3 * i);
        assert(tail == msg + more);
        assert(at(sc, 3 * i) == tail[0] && tail[0] == msg[0]);
        assert(at(sc, 3 * i + 1) == tail[1] && tail[1] == msg[1]);
        assert(at(sc, 3 * i + 2) == tail[2] && tail[2] == msg[2]);
        assert(sc.skip(3 * (i + 1)) =~= tail.skip(3));
        assert(tail.skip(3) =~= more);
        lemma_round_halves(g, coins, tabs, len);
        lemma_round_fold(g, coins, tabs, len, r);
        let c = psum(m, |j: int| line_poly(g, coins, tabs, j));
        lemma_round_poly(g, coins, tabs, len, 2, 0);
        lemma_round_poly(g, coins, tabs, len, 2, 1);
        lemma_round_poly(g, coins, tabs, len, 2, 2);
        lemma_round_poly(g, coins, tabs, len, 2, r);
        lemma_parabola(c, r);
        let y1 = parabola(msg[0], msg[1], msg[2], r);
        let st1 = State { ch: st.ch.drop_first(), ..st };
        assert(st1.ch.take(n - 1) =~= rest);
        assert(require(st, cong(msg[0] + msg[1], y)) == st);
        lemma_batch_rounds(g, coins, next, sc, i + 1, nv, y1, st1);
        assert(st1.ch.skip(n - 1) =~= st.ch.skip(n));
        assert(seq![r] + rest =~= rs);
        assert(values_at(tabs, rs) =~= values_at(next, rest)) by {
            assert forall|t: int| 0 <= t < tabs.len() implies values_at(tabs, rs)[t] == values_at(
                next,
                rest,
            )[t] by {
                lemma_mle_fold(tabs[t], rs);
                assert(next[t] == fold(tabs[t], r));
            }
        }
    }
}

pub proof fn lemma_batch_gate_degree(k: int, n: int)
    ensures
        gate_degree(batch_gate(k, n)) <= 2,
    decreases k,
{
    if k > 0 {
        lemma_batch_gate_degree(k - 1, n);
        reveal_with_fuel(gate_degree, 5);
    }
}

/// The claim of a joint opening is the sum weighted by the powers.
pub proof fn lemma_horner(v: Seq<int>, r: int)
    ensures
        horner(v, r) == sum_to(v.len() as int, |i: int| powers(r, v.len() as int)[i] * v[i]),
    decreases v.len(),
{
    let k = v.len() as int;
    if k > 0 {
        let u = v.drop_last();
        lemma_horner(u, r);
        let a = |i: int| powers(r, k)[i] * v[i];
        let b = |i: int| powers(r, k - 1)[i] * u[i];
        let rb = |i: int| r * b(i);
        assert forall|i: int| 0 <= i < k - 1 implies #[trigger] a(i) == rb(i) by {
            reveal(pow);
            let p = pow(r, (k - 2 - i) as nat);
            assert(pow(r, (k - 1 - i) as nat) == r * p);
            let w = v[i];
            assert((r * p) * w == r * (p * w)) by (nonlinear_arith);
        }
        lemma_sum_eq(k - 1, a, rb);
        lemma_sum_scale(k - 1, r, b);
        lemma_pow0(r);
        assert(a(k - 1) == 1 * v[k - 1]);
        let h = sum_to(k - 1, b);
        assert(r * h == h * r) by (nonlinear_arith);
    }
}

proof fn lemma_combine_at(polys: Seq<Seq<int>>, w: Seq<int>, t: int)
    requires
        t >= 0,
    ensures
        at(combine(polys, w), t) == sum_to(
            polys.len() as int,
            |i: int| w[i] * at(polys[i], t),
        ),
{
    let k = polys.len() as int;
    lemma_max_len_nonneg(polys, k);
    if t >= max_len(polys, k) {
        let f = |i: int| w[i] * at(polys[i], t);
        assert forall|i: int| 0 <= i < k implies #[trigger] f(i) == 0 by {
            lemma_max_len(polys, k, i);
            assert(w[i] * 0 == 0);
        }
        crate::sums::lemma_sum_zero(k, f);
    }
}

proof fn lemma_max_len_nonneg(v: Seq<Seq<int>>, k: int)
    ensures
        max_len(v, k) >= 0,
    decreases k,
{
    if k > 0 {
        lemma_max_len_nonneg(v, k - 1);
    }
}

proof fn lemma_chunks_mono(a: int, b: int, n: int)
    requires
        0 <= a <= b,
        n > 0,
    ensures
        num_chunks(a, n) <= num_chunks(b, n),
{
    vstd::arithmetic::div_mod::lemma_div_is_ordered(a + n - 1, b + n - 1, n);
}

/// The longest commitment is that to the longest polynomial.
proof fn lemma_max_chunks(srs: Seq<int>, polys: Seq<Seq<int>>, comms: Seq<Seq<int>>, k: int)
    requires
        srs.len() > 0,
        0 <= k <= polys.len(),
        comms.len() == polys.len(),
        forall|i: int| 0 <= i < polys.len() ==> #[trigger] comms[i] == commit_of(srs, polys[i]),
    ensures
        max_len(comms, k) == num_chunks(max_len(polys, k), srs.len() as int),
    decreases k,
{
    let n = srs.len() as int;
    if k == 0 {
        lemma_num_chunks(0, n);
        assert(num_chunks(0, n) == 0) by {
            let c = num_chunks(0, n);
            assert(c <= 0) by (nonlinear_arith)
                requires
                    c * n < n,
                    n > 0,
            ;
        }
    } else {
        lemma_max_chunks(srs, polys, comms, k - 1);
        lemma_max_len_nonneg(polys, k - 1);
        lemma_num_chunks(polys[k - 1].len() as int, n);
        assert(comms[k - 1].len() == num_chunks(polys[k - 1].len() as int, n));
        let a = max_len(polys, k - 1);
        let b = polys[k - 1].len() as int;
        if a >= b {
            lemma_chunks_mono(b, a, n);
        } else {
            lemma_chunks_mono(a, b, n);
        }
    }
}

/// The commitment to a weighted sum is the weighted sum of the commitments.
pub proof fn law_combine(srs: Seq<int>, polys: Seq<Seq<int>>, comms: Seq<Seq<int>>, w: Seq<int>)
    requires
        srs.len() > 0,
        comms.len() == polys.len(),
        forall|i: int| 0 <= i < polys.len() ==> #[trigger] comms[i] == commit_of(srs, polys[i]),
    ensures
        commit_of(srs, combine(polys, w)) == combine_commits(comms, w),
{
    let k = polys.len() as int;
    let n = srs.len() as int;
    let f = combine(polys, w);
    let a = commit_of(srs, f);
    let b = combine_commits(comms, w);
    lemma_max_chunks(srs, polys, comms, k);
    lemma_max_len_nonneg(polys, k);
    lemma_max_len_nonneg(comms, k);
    assert(f.len() == max_len(polys, k));
    assert(a.len() == b.len());
    assert forall|c: int| 0 <= c < a.len() implies a[c] == b[c] by {
        let t = |j: int, i: int| srs[j] * (w[i] * at(polys[i], c * n + j));
        let x = |j: int| srs[j] * at(f, c * n + j);
        let x2 = |j: int| sum_to(k, |i: int| t(j, i));
        assert(c * n >= 0) by (nonlinear_arith)
            requires
                c >= 0,
                n > 0,
        ;
        assert forall|j: int| 0 <= j < n implies #[trigger] x(j) == x2(j) by {
            lemma_combine_at(polys, w, c * n + j);
            let u = |i: int| w[i] * at(polys[i], c * n + j);
            lemma_sum_scale(k, srs[j], u);
            lemma_sum_eq(k, |i: int| srs[j] * u(i), |i: int| t(j, i));
        }
        lemma_sum_eq(n, x, x2);
        lemma_sum_swap(n, k, t);
        let y = |i: int| sum_to(n, |j: int| t(j, i));
        let z = |i: int| at(comms[i], c) * w[i];
        assert forall|i: int| 0 <= i < k implies #[trigger] y(i) == z(i) by {
            let v = |j: int| srs[j] * at(polys[i], c * srs.len() + j);
            let wi = w[i];
            let wv = |j: int| wi * v(j);
            let tj = |j: int| t(j, i);
            assert forall|j: int| 0 <= j < n implies #[trigger] tj(j) == wv(j) by {
                let p = srs[j];
                let q = at(polys[i], c * n + j);
                assert(p * (wi * q) == wi * (p * q)) by (nonlinear_arith);
            }
            lemma_sum_eq(n, tj, wv);
            lemma_sum_scale(n, wi, v);
            lemma_commit_chunks(srs, polys[i]);
            lemma_num_chunks(polys[i].len() as int, n);
            assert(comms[i] == commit_of(srs, polys[i]));
            assert(chunk_value(polys[i], srs, c) == sum_to(n, v));
            if c >= comms[i].len() {
                lemma_chunk_outside(polys[i], srs, c);
            }
            let s = sum_to(n, v);
            assert(wi * s == s * wi) by (nonlinear_arith);
        }
        lemma_sum_eq(k, y, z);
    }
    assert(a =~= b);
}

/// The value of a weighted sum is the weighted sum of the values.
pub proof fn lemma_mle_combine(polys: Seq<Seq<int>>, w: Seq<int>, p: Seq<int>)
    ensures
        mle(combine(polys, w), p) == sum_to(
            polys.len() as int,
            |i: int| w[i] * mle(polys[i], p),
        ),
{
    let k = polys.len() as int;
    let f = combine(polys, w);
    let n = f.len() as int;
    lemma_max_len_nonneg(polys, k);
    let t = |j: int, i: int| (w[i] * at(polys[i], j)) * eq_at(p, j);
    let x = |j: int| f[j] * eq_at(p, j);
    let x2 = |j: int| sum_to(k, |i: int| t(j, i));
    assert forall|j: int| 0 <= j < n implies #[trigger] x(j) == x2(j) by {
        lemma_combine_at(polys, w, j);
        let u = |i: int| w[i] * at(polys[i], j);
        let e = eq_at(p, j);
        lemma_sum_scale(k, e, u);
        let s = sum_to(k, u);
        assert(s * e == e * s) by (nonlinear_arith);
        let eu = |i: int| e * u(i);
        let ti = |i: int| t(j, i);
        assert forall|i: int| 0 <= i < k implies #[trigger] eu(i) == ti(i) by {
            let a = u(i);
            assert(e * a == a * e) by (nonlinear_arith);
        }
        lemma_sum_eq(k, eu, ti);
    }
    lemma_sum_eq(n, x, x2);
    lemma_sum_swap(n, k, t);
    let y = |i: int| sum_to(n, |j: int| t(j, i));
    let z = |i: int| w[i] * mle(polys[i], p);
    assert forall|i: int| 0 <= i < k implies #[trigger] y(i) == z(i) by {
        let wi = w[i];
        let v = |j: int| at(polys[i], j) * eq_at(p, j);
        let wv = |j: int| wi * v(j);
        let tj = |j: int| t(j, i);
        assert forall|j: int| 0 <= j < n implies #[trigger] tj(j) == wv(j) by {
            let a = at(polys[i], j);
            let e = eq_at(p, j);
            assert((wi * a) * e == wi * (a * e)) by (nonlinear_arith);
        }
        lemma_sum_eq(n, tj, wv);
        lemma_sum_scale(n, wi, v);
        lemma_max_len(polys, k, i);
        let l = polys[i].len() as int;
        assert forall|j: int| l <= j < n implies #[trigger] v(j) == 0 by {
            assert(0 * eq_at(p, j) == 0);
        }
        lemma_sum_extend(l, n, v);
        lemma_sum_eq(l, v, |i0: int| polys[i][i0] * eq_at(p, i0));
        lemma_sum_eq(
            l,
            |i0: int| polys[i][i0] * eq_at(p, i0),
            |j: int| polys[i][j] * eq_at(p, j),
        );
    }
    lemma_sum_eq(k, y, z);
}

/// Each polynomial has a value at its point, and no point is longer than `nv`.
pub open spec fn points_fit(polys: Seq<Seq<int>>, pts: Seq<Seq<int>>, nv: int) -> bool {
    forall|i: int|
        0 <= i < polys.len() ==> {
            &&& pts[i].len() <= nv
            &&& (#[trigger] polys[i]).len() <= pow2(pts[i].len())
        }
}

/// The sum of a joint opening is the sum of the values weighted by the coins.
pub proof fn lemma_batch_sum(polys: Seq<Seq<int>>, pts: Seq<Seq<int>>, nv: int, coins: Seq<int>)
    requires
        polys.len() == pts.len(),
        2 * polys.len() <= usize::MAX,
        nv >= 0,
        points_fit(polys, pts, nv),
    ensures
        whole_sum(
            batch_gate(polys.len() as int, polys.len() as int),
            coins,
            batch_tables(polys, pts, nv),
            pow2(nv as nat) as int,
        ) == sum_to(polys.len() as int, |i: int| coins[i] * mle(polys[i], pts[i])),
        same_len(batch_tables(polys, pts, nv), pow2(nv as nat) as int),
{
    let k = polys.len() as int;
    let n = pow2(nv as nat) as int;
    let g = batch_gate(k, k);
    let tabs = batch_tables(polys, pts, nv);
    assert forall|t: int| 0 <= t < tabs.len() implies (#[trigger] tabs[t]).len() == n by {
        if t < k {
            assert(tabs[t] == resized(polys[t], n));
        } else {
            assert(tabs[t].len() == n);
        }
    }
    let t = |x: int, i: int| coins[i] * (at(polys[i], x) * eq_at(resized(pts[i], nv), x));
    let a = |x: int| row_value(g, coins, tabs, x);
    let b = |x: int| sum_to(k, |i: int| t(x, i));
    assert forall|x: int| 0 <= x < n implies #[trigger] a(x) == b(x) by {
        let v = row_at(tabs, x);
        lemma_batch_gate_value(k, k, v, coins);
        let c = |i: int| coins[i] * (v[i] * v[k + i]);
        let d = |i: int| t(x, i);
        assert forall|i: int| 0 <= i < k implies #[trigger] c(i) == d(i) by {
            assert(v[i] == at(tabs[i], x));
            assert(tabs[i] == resized(polys[i], n));
            assert(v[k + i] == at(tabs[k + i], x));
            assert(tabs[k + i][x] == eq_at(resized(pts[i], nv), x));
        }
        lemma_sum_eq(k, c, d);
    }
    lemma_sum_eq(n, a, b);
    lemma_sum_swap(n, k, t);
    let y = |i: int| sum_to(n, |x: int| t(x, i));
    let z = |i: int| coins[i] * mle(polys[i], pts[i]);
    assert forall|i: int| 0 <= i < k implies #[trigger] y(i) == z(i) by {
        let q = resized(pts[i], nv);
        let u = |x: int| at(polys[i], x) * eq_at(q, x);
        let ti = |x: int| t(x, i);
        lemma_sum_eq(n, ti, |x: int| coins[i] * u(x));
        lemma_sum_scale(n, coins[i], u);
        let l = polys[i].len() as int;
        lemma_pow2_mono(pts[i].len(), nv as nat);
        assert forall|x: int| l <= x < n implies #[trigger] u(x) == 0 by {
            assert(0 * eq_at(q, x) == 0);
        }
        lemma_sum_extend(l, n, u);
        lemma_sum_eq(l, u, |i0: int| polys[i][i0] * eq_at(q, i0));
        assert(mle(polys[i], q) == sum_to(l, |i0: int| polys[i][i0] * eq_at(q, i0))) by {
            lemma_sum_eq(
                l,
                |i0: int| polys[i][i0] * eq_at(q, i0),
                |j: int| polys[i][j] * eq_at(q, j),
            );
        }
        lemma_mle_longer(polys[i], pts[i], nv);
    }
    lemma_sum_eq(k, y, z);
}

/// The claims of a joint opening: each polynomial has the value that is claimed, at a
/// point with a coordinate for each of its variables.
pub open spec fn claims_hold(
    polys: Seq<Seq<int>>,
    pts: Seq<Seq<int>>,
    vals: Seq<int>,
) -> bool {
    &&& polys.len() == pts.len()
    &&& polys.len() == vals.len()
    &&& forall|i: int|
        0 <= i < polys.len() ==> {
            &&& 0 < (#[trigger] polys[i]).len()
            &&& log2_ceil(polys[i].len() as int) <= pts[i].len()
            &&& cong(vals[i], mle(polys[i], pts[i]))
        }
}

/// With a coordinate for each variable, the points say how many variables there are.
pub proof fn lemma_batch_vars_points(polys: Seq<Seq<int>>, pts: Seq<Seq<int>>, k: int)
    requires
        0 <= k <= polys.len(),
        polys.len() == pts.len(),
        forall|i: int|
            0 <= i < polys.len() ==> log2_ceil((#[trigger] polys[i]).len() as int) <= pts[i].len(),
    ensures
        batch_vars(polys, pts, k) == max_len(pts, k),
        batch_vars(polys, pts, k) >= 0,
    decreases k,
{
    if k > 0 {
        lemma_batch_vars_points(polys, pts, k - 1);
        assert(log2_ceil(polys[k - 1].len() as int) <= pts[k - 1].len());
    }
}

proof fn lemma_points_fit(polys: Seq<Seq<int>>, pts: Seq<Seq<int>>, vals: Seq<int>)
    requires
        claims_hold(polys, pts, vals),
    ensures
        points_fit(polys, pts, batch_vars(polys, pts, polys.len() as int)),
{
    let k = polys.len() as int;
    let nv = batch_vars(polys, pts, k);
    assert forall|i: int| 0 <= i < polys.len() implies pts[i].len() <= nv by {
        lemma_batch_vars(polys, pts, k, i);
    }
    assert forall|i: int| 0 <= i < polys.len() implies (#[trigger] polys[i]).len() <= pow2(
        pts[i].len(),
    ) by {
        lemma_log2_ceil(polys[i].len() as int);
        lemma_pow2_mono(log2_ceil(polys[i].len() as int), pts[i].len());
    }
    assert forall|i: int| 0 <= i < polys.len() implies pts[i].len() <= nv && (
    #[trigger] polys[i]).len() <= pow2(pts[i].len()) by {
        assert(pts[i].len() <= nv);
    }
}

/// A joint opening of right claims is accepted, and uses up its challenges.
#[verifier::rlimit(40)]
pub proof fn law_batch_open(
    g: int,
    h: int,
    tau: Seq<int>,
    polys: Seq<Seq<int>>,
    pts: Seq<Seq<int>>,
    vals: Seq<int>,
    comms: Seq<Seq<int>>,
    st: State,
)
    requires
        polys.len() > 0,
        2 * polys.len() <= usize::MAX,
        claims_hold(polys, pts, vals),
        comms.len() == polys.len(),
        forall|i: int|
            0 <= i < polys.len() ==> #[trigger] comms[i] == commit_of(srs_of(g, tau), polys[i]),
        st.ok,
        st.ch.len() >= 1 + batch_vars(polys, pts, polys.len() as int),
        openable(
            tau.len(),
            st.ch.subrange(1, 1 + batch_vars(polys, pts, polys.len() as int)),
        ),
    ensures
        ({
            let (proof, sc) = batch_open_of(srs_of(g, tau), polys, pts, st.ch);
            batch_verify_of(ver_params_of(g, h, tau), pts, comms, vals, proof, sc, st) == (State {
                ch: st.ch.skip(1 + batch_vars(polys, pts, polys.len() as int)),
                ..st
            })
        }),
{
    let k = polys.len() as int;
    let srs = srs_of(g, tau);
    let vp = ver_params_of(g, h, tau);
    lemma_pow2_step(tau.len());
    let nv = batch_vars(polys, pts, k);
    assert forall|i: int| 0 <= i < k implies log2_ceil((#[trigger] polys[i]).len() as int)
        <= pts[i].len() by {}
    lemma_batch_vars_points(polys, pts, k);
    let r = st.ch[0];
    let rp = st.ch.subrange(1, 1 + nv);
    let (proof, sc) = batch_open_of(srs, polys, pts, st.ch);
    let gate = batch_gate(k, k);
    let coins = powers(r, k);
    let tabs = batch_tables(polys, pts, nv);
    let n = pow2(nv as nat) as int;
    let st1 = State { ch: st.ch.drop_first(), ..st };
    assert(challenge(st) == (st1, r));
    assert(st1.ch.take(nv) =~= rp);
    lemma_messages_len(gate, coins, tabs, n, 2, rp);
    assert(sc.len() == 3 * nv);
    assert(sc.skip(0) =~= sc);
    lemma_batch_gate_fits(k, k);
    lemma_batch_gate_degree(k, k);
    lemma_points_fit(polys, pts, vals);
    lemma_batch_sum(polys, pts, nv, coins);
    lemma_horner(vals, r);
    let a = |i: int| coins[i] * vals[i];
    let b = |i: int| coins[i] * mle(polys[i], pts[i]);
    assert forall|i: int| 0 <= i < k implies cong(#[trigger] a(i), b(i)) by {
        assert(0 < polys[i].len());
        lemma_cong_ops(coins[i], coins[i], vals[i], mle(polys[i], pts[i]));
    }
    lemma_sum_cong(k, a, b);
    let y0 = horner(vals, r);
    assert(tabs.len() == 2 * k);
    lemma_batch_rounds(gate, coins, tabs, sc, 0, nv, y0, st1);
    let (p, y, end) = batch_rounds(sc, 0, nv, y0, st1);
    assert(p == rp);
    assert(end.ch =~= st.ch.skip(1 + nv));
    // the weights
    let w = batch_weights(pts, nv, r, rp);
    let w2 = verifier_weights(pts, nv, r, rp);
    assert(w =~= w2) by {
        assert forall|i: int| 0 <= i < k implies w[i] == w2[i] by {
            law_eq_of_eq(resized(pts[i], nv), rp);
        }
    }
    law_combine(srs, polys, comms, w);
    let f = combine(polys, w);
    // the value
    let v = values_at(tabs, rp);
    lemma_batch_gate_value(k, k, v, coins);
    lemma_mle_combine(polys, w, rp);
    let c = |i: int| coins[i] * (v[i] * v[k + i]);
    let d = |i: int| w[i] * mle(polys[i], rp);
    assert forall|i: int| 0 <= i < k implies #[trigger] c(i) == d(i) by {
        assert(tabs[i] == resized(polys[i], n));
        lemma_pow2_mono(pts[i].len(), nv as nat);
        assert(polys[i].len() <= pow2(pts[i].len()));
        lemma_mle_pad(polys[i], tabs[i], rp);
        assert(v[i] == mle(polys[i], rp));
        assert(v[k + i] == mle(tabs[k + i], rp));
        assert(tabs[k + i] =~= Seq::new(pow2(nv as nat), |j: int| eq_at(resized(pts[i], nv), j)));
        let x = coins[i];
        let y1 = v[i];
        let z = v[k + i];
        assert(x * (y1 * z) == (x * z) * y1) by (nonlinear_arith);
    }
    lemma_sum_eq(k, c, d);
    assert(cong(y, mle(f, rp)));
    assert forall|i: int| 0 <= i < k implies (#[trigger] polys[i]).len() <= n by {
        assert(polys[i].len() <= pow2(pts[i].len()));
        lemma_pow2_mono(pts[i].len(), nv as nat);
    }
    lemma_max_len_bound(polys, k, n);
    lemma_max_len(polys, k, 0);
    assert(0 < polys[0].len());
    assert(f.len() > 0 && f.len() <= pow2(rp.len()));
    law_open(g, h, tau, f, rp, y);
    assert(min(nv, rp.len() as int) == nv);
}

} // verus!
