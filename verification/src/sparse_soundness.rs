//! What wrong values of the matrices need to pass an opening.
use vstd::prelude::*;
use vstd::arithmetic::power2::*;
use crate::channel::{State, challenge, challenges, read_fs, read_len, read_points, require};
use crate::field::{cong, lemma_cong_ops, lemma_modulus, lemma_residue_small};
use crate::gates::{lemma_gate_degrees, lemma_gate_values, logup_combined, logup_right};
use crate::logup::{lemma_vanishing, shape_of};
use crate::multiplicities::{hidden, in_table, law_members, lookup_shares};
use crate::poly::{at, eq_at, eq_prefix, mle, ones_prefix};
use crate::refusal::{lemma_right_ok, lemma_rounds_len, lemma_rounds_ok};
use crate::replay::{row_at, row_value};
use crate::shapes::{
    lemma_mle_affine, lemma_mle_eq_take, lemma_mle_fingerprints, lemma_mle_shifted,
};
use crate::soundness::{
    Fractions, all_zero, cancelled, defects, entry_products, law_nonzero, law_sound_rounds,
    lemma_side, met, vanished,
};
use crate::sparse::{
    GroupCommits, GroupView, affine, below, eq_table, fingerprints, shifted, total,
};
use crate::sparse_verifier::{ShapeView, VerAcc, shape_at, ver_push, verify_memory, verify_right};
use crate::sumcheck::{gate_fits, lemma_log2_ceil, log2_ceil, same_len, values_at, verify_rounds};
use crate::sums::{lemma_sum_add, lemma_sum_eq, lemma_sum_scale, sum_to};

verus! {

/// What the check of a table reads before its rounds: the number of rows, the challenges
/// that weigh them and the coin; and the state then.
pub open spec fn right_start(st: State, log_n: nat) -> (int, Seq<int>, int, State) {
    let (st1, len) = read_len(st, 0);
    let nv = log2_ceil(len) as int;
    let st2 = require(st1, nv == log_n);
    let (st3, req) = challenges(st2, nv);
    let (st4, r) = challenge(st3);
    (len, req, r, st4)
}

/// The numbers of the rows of a table, each plus a multiple of its entry and a constant.
pub open spec fn table_keys(tab: Seq<int>, alpha: int, beta: int) -> Seq<int> {
    shifted(fingerprints(tab, beta), alpha)
}

/// The inverses for a table are inverses and add up, weighted by the counts, to what is
/// claimed.
pub open spec fn right_right(
    alpha: int,
    beta: int,
    claim: int,
    tab: Seq<int>,
    inv: Seq<int>,
    count: Seq<int>,
) -> bool {
    &&& all_zero(defects(table_keys(tab, alpha, beta), inv))
    &&& cong(total(entry_products(inv, count)), claim)
}

/// A challenge of the check of a table slips: one that weighs the defects, the coin, or one
/// of a round.
pub open spec fn right_slip(
    st: State,
    alpha: int,
    beta: int,
    claim: int,
    log_n: nat,
    tab: Seq<int>,
    inv: Seq<int>,
    count: Seq<int>,
) -> bool {
    let (len, req, coin, start) = right_start(st, log_n);
    let keys = table_keys(tab, alpha, beta);
    ||| vanished(defects(keys, inv), req)
    ||| cancelled(mle(defects(keys, inv), req), total(entry_products(inv, count)), claim, coin)
    ||| met(
        claim * coin,
        log_n as int,
        3,
        start,
        logup_right(),
        seq![coin],
        seq![keys, inv, count, eq_table(req).take(len)],
        len,
    )
}

/// The last claims of a list are right of two vectors.
pub open spec fn two_right(acc: VerAcc, a: Seq<int>, b: Seq<int>) -> bool {
    let n = acc.values.len() as int;
    &&& n >= 2
    &&& acc.points.len() == n
    &&& cong(acc.values[n - 2], mle(a, acc.points[n - 2]))
    &&& cong(acc.values[n - 1], mle(b, acc.points[n - 1]))
}

#[verifier::rlimit(40)]
proof fn lemma_right_shown(
    st: State,
    alpha: int,
    beta: int,
    claim: int,
    log_n: nat,
    shape: ShapeView,
    inv_commit: Seq<int>,
    count_commit: Seq<int>,
    acc: VerAcc,
    tab: Seq<int>,
    inv: Seq<int>,
    count: Seq<int>,
)
    requires
        shape_of(shape, tab, log_n),
        inv.len() == tab.len(),
        count.len() == tab.len(),
        acc.points.len() == acc.values.len(),
        right_start(st, log_n).0 == tab.len(),
        ({
            let (end, out) = verify_right(
                st,
                alpha,
                beta,
                claim,
                log_n,
                shape,
                inv_commit,
                count_commit,
                acc,
            );
            end.ok && two_right(out, inv, count)
        }),
    ensures
        right_right(alpha, beta, claim, tab, inv, count) || right_slip(
            st,
            alpha,
            beta,
            claim,
            log_n,
            tab,
            inv,
            count,
        ),
{
    reveal(verify_right);
    let (len, req, coin, start) = right_start(st, log_n);
    let nv = log2_ceil(len) as int;
    let (p, y, st5) = verify_rounds(claim * coin, nv, 3, start);
    let (st6, t) = read_fs(st5, 3);
    let n = tab.len() as int;
    lemma_rounds_ok(claim * coin, nv, 3, start);
    assert(nv == log_n);
    lemma_rounds_len(claim * coin, nv, 3, start);
    let keys = table_keys(tab, alpha, beta);
    let tabs = seq![keys, inv, count, eq_table(req).take(n)];
    let coins = seq![coin];
    let g = logup_right();
    vstd::arithmetic::power2::lemma_pow2_pos(log_n);
    lemma_log2_ceil(n);
    lemma_gate_degrees();
    reveal_with_fuel(gate_fits, 6);
    lemma_vanishing(coins);
    assert(req.len() == nv);
    assert(same_len(tabs, n)) by {
        assert forall|i: int| 0 <= i < tabs.len() implies (#[trigger] tabs[i]).len() == n by {}
    }
    let x = values_at(tabs, p);
    lemma_gate_values(x, coins);
    lemma_mle_eq_take(req, p, n);
    assert(x[0] == mle(tabs[0], p));
    assert(x[1] == mle(tabs[1], p));
    assert(x[2] == mle(tabs[2], p));
    assert(x[3] == mle(tabs[3], p));
    assert(cong(t[0], x[0])) by {
        lemma_mle_shifted(fingerprints(tab, beta), alpha, p);
        lemma_mle_fingerprints(tab, beta, p);
        assert(shape_at(shape, p) == mle(tab, p));
        crate::poly::lemma_eq_total(p);
        assert(alpha * 1 == alpha);
    }
    let out = ver_push(ver_push(acc, inv_commit, p, t[1]), count_commit, p, t[2]);
    let m = out.values.len() as int;
    assert(out.values[m - 2] == t[1] && out.points[m - 2] == p);
    assert(out.values[m - 1] == t[2] && out.points[m - 1] == p);
    lemma_cong_ops(t[0], x[0], t[1], x[1]);
    lemma_cong_ops(t[0] * t[1], x[0] * x[1], 1, 1);
    lemma_cong_ops(t[0] * t[1] - 1, x[0] * x[1] - 1, x[3], x[3]);
    lemma_cong_ops(coin, coin, t[1], x[1]);
    lemma_cong_ops(coin * t[1], coin * x[1], t[2], x[2]);
    lemma_cong_ops(
        (t[0] * t[1] - 1) * x[3],
        (x[0] * x[1] - 1) * x[3],
        coin * t[1] * t[2],
        coin * x[1] * x[2],
    );
    law_sound_rounds(g, coins, tabs, n, 3, nv, claim * coin, start);
    let f = |j: int| row_value(g, coins, tabs, j);
    let weighed = entry_products(inv, count);
    if cong(claim * coin, sum_to(n, f)) {
        assert forall|j: int| 0 <= j < n implies #[trigger] f(j) == (keys[j] * inv[j] - 1)
            * eq_at(req, j) + coin * weighed[j] by {
            let u = row_at(tabs, j);
            lemma_gate_values(u, coins);
            assert(u[0] == at(tabs[0], j));
            assert(u[1] == at(tabs[1], j));
            assert(u[2] == at(tabs[2], j));
            assert(u[3] == at(tabs[3], j));
            let a = inv[j];
            let b = count[j];
            assert(coin * a * b == coin * (a * b)) by (nonlinear_arith);
        }
        lemma_side(keys, inv, weighed, claim, req, coin, f);
    }
}

/// The numbers of entries, each plus a multiple of what it reads and a constant.
pub open spec fn entry_keys(idx: Seq<int>, e: Seq<int>, alpha: int, beta: int) -> Seq<int> {
    shifted(affine(idx, e, beta), alpha)
}

/// The vectors that the check of the reads of a group is about: what is read from the three
/// tables, and what is said to be the inverses for the entries and for the tables.
pub ghost struct MemoryVectors {
    pub e_row: Seq<int>,
    pub e_col: Seq<int>,
    pub e_pow: Seq<int>,
    pub ir: Seq<int>,
    pub ic: Seq<int>,
    pub ig: Seq<int>,
    pub vr: Seq<int>,
    pub vc: Seq<int>,
    pub vg: Seq<int>,
}

/// What the check of the reads of a group reads and draws before it comes to the tables.
pub ghost struct MemoryRun {
    pub br: int,
    pub bc: int,
    pub bp: int,
    pub alpha: int,
    pub rho: int,
    pub ir: Seq<int>,
    pub ic: Seq<int>,
    pub ig: Seq<int>,
    pub sums: Seq<int>,
    pub len: int,
    pub req: Seq<int>,
    pub coin: int,
    pub start: State,
    pub point: Seq<int>,
    pub v: Seq<int>,
    pub w: Seq<int>,
    pub vr: Seq<int>,
    pub vc: Seq<int>,
    pub vg: Seq<int>,
    pub end: State,
}

/// The claim of the rounds on the entries.
pub open spec fn blended_sums(s: Seq<int>, rho: int) -> int {
    s[0] + rho * s[1] + rho * rho * s[2]
}

/// What the check of the reads of a group reads and draws before it comes to the tables.
pub open spec fn memory_run(st: State) -> MemoryRun {
    let (st1, c) = challenges(st, 5);
    let rho = c[4];
    let rho2 = rho * rho;
    let (st2, ir) = read_points(st1);
    let (st3, ic) = read_points(st2);
    let (st4, ig) = read_points(st3);
    let (st5, s) = read_fs(st4, 3);
    let (st6, len) = read_len(st5, 0);
    let nv = log2_ceil(len) as int;
    let (st7, req) = challenges(st6, nv);
    let (st8, r) = challenge(st7);
    let (p, y, st9) = verify_rounds(r * blended_sums(s, rho), nv, 3, st8);
    let (st10, v) = read_fs(st9, 6);
    let st11 = require(
        st10,
        cong(
            y,
            ((v[0] * v[1] - 1) + rho * (v[2] * v[3] - 1) + rho2 * (v[4] * v[5] - 1)) * eq_prefix(
                req,
                p,
                len,
            ) + r * (v[1] + rho * v[3] + rho2 * v[5]),
        ),
    );
    let (st12, w) = read_fs(st11, 6);
    let ones = ones_prefix(p, len);
    let st13 = require(st12, cong(v[0], c[3] * ones + w[0] + c[0] * w[3]));
    let st14 = require(st13, cong(v[2], c[3] * ones + w[1] + c[1] * w[4]));
    let st15 = require(st14, cong(v[4], c[3] * ones + w[2] + c[2] * w[5]));
    let (st16, vr) = read_points(st15);
    let (st17, vc) = read_points(st16);
    let (st18, vg) = read_points(st17);
    MemoryRun {
        br: c[0],
        bc: c[1],
        bp: c[2],
        alpha: c[3],
        rho,
        ir,
        ic,
        ig,
        sums: s,
        len,
        req,
        coin: r,
        start: st8,
        point: p,
        v,
        w,
        vr,
        vc,
        vg,
        end: st18,
    }
}

/// The claims on the entries of a group.
pub open spec fn entry_claims(
    g: GroupCommits,
    e_row: Seq<int>,
    e_col: Seq<int>,
    e_pow: Seq<int>,
    m: MemoryRun,
    acc: VerAcc,
) -> VerAcc {
    let p = m.point;
    let a1 = ver_push(
        ver_push(ver_push(acc, g.row, p, m.w[0]), g.col, p, m.w[1]),
        g.pow,
        p,
        m.w[2],
    );
    let a2 = ver_push(
        ver_push(ver_push(a1, e_row, p, m.w[3]), e_col, p, m.w[4]),
        e_pow,
        p,
        m.w[5],
    );
    ver_push(ver_push(ver_push(a2, m.ir, p, m.v[1]), m.ic, p, m.v[3]), m.ig, p, m.v[5])
}

/// The check of the reads of a group is that of its entries and those of its tables.
proof fn lemma_memory_run(
    g: GroupCommits,
    e_row: Seq<int>,
    e_col: Seq<int>,
    e_pow: Seq<int>,
    tr: ShapeView,
    tc: ShapeView,
    tg: ShapeView,
    st: State,
    acc: VerAcc,
)
    ensures
        ({
            let m = memory_run(st);
            let s = m.sums;
            let a3 = entry_claims(g, e_row, e_col, e_pow, m, acc);
            let (s1, a4) = verify_right(
                m.end,
                m.alpha,
                m.br,
                s[0],
                g.log_row,
                tr,
                m.vr,
                g.count_row,
                a3,
            );
            let (s2, a5) = verify_right(
                s1,
                m.alpha,
                m.bc,
                s[1],
                g.log_col,
                tc,
                m.vc,
                g.count_col,
                a4,
            );
            verify_memory(g, e_row, e_col, e_pow, tr, tc, tg, st, acc) == verify_right(
                s2,
                m.alpha,
                m.bp,
                s[2],
                g.log_pow,
                tg,
                m.vg,
                g.count_pow,
                a5,
            )
        }),
{
    reveal(verify_memory);
}

/// The claims on the entries are right of the vectors.
pub open spec fn entries_right(m: MemoryRun, g: GroupView, x: MemoryVectors) -> bool {
    &&& cong(m.w[0], mle(g.row, m.point))
    &&& cong(m.w[1], mle(g.col, m.point))
    &&& cong(m.w[2], mle(g.pow, m.point))
    &&& cong(m.w[3], mle(x.e_row, m.point))
    &&& cong(m.w[4], mle(x.e_col, m.point))
    &&& cong(m.w[5], mle(x.e_pow, m.point))
    &&& cong(m.v[1], mle(x.ir, m.point))
    &&& cong(m.v[3], mle(x.ic, m.point))
    &&& cong(m.v[5], mle(x.ig, m.point))
}

/// The vectors have as many places as there are entries.
pub open spec fn vectors_fit(g: GroupView, x: MemoryVectors) -> bool {
    let n = g.row.len();
    &&& n > 0
    &&& g.col.len() == n
    &&& g.pow.len() == n
    &&& x.e_row.len() == n
    &&& x.e_col.len() == n
    &&& x.e_pow.len() == n
    &&& x.ir.len() == n
    &&& x.ic.len() == n
    &&& x.ig.len() == n
}

/// Three numbers that are not all zero cancel, weighted by the powers of a challenge.
pub open spec fn blended(a: int, b: int, c: int, rho: int) -> bool {
    &&& cong(a + rho * b + rho * rho * c, 0)
    &&& !(cong(a, 0) && cong(b, 0) && cong(c, 0))
}

/// Three vectors, weighted by the powers of a challenge.
pub open spec fn blend(a: Seq<int>, b: Seq<int>, c: Seq<int>, rho: int) -> Seq<int> {
    Seq::new(a.len(), |i: int| a[i] + rho * b[i] + rho * rho * c[i])
}

/// The inverses for the entries are inverses and add up to what is claimed.
pub open spec fn left_right(m: MemoryRun, g: GroupView, x: MemoryVectors) -> bool {
    &&& all_zero(defects(entry_keys(g.row, x.e_row, m.alpha, m.br), x.ir))
    &&& all_zero(defects(entry_keys(g.col, x.e_col, m.alpha, m.bc), x.ic))
    &&& all_zero(defects(entry_keys(g.pow, x.e_pow, m.alpha, m.bp), x.ig))
    &&& cong(total(x.ir), m.sums[0])
    &&& cong(total(x.ic), m.sums[1])
    &&& cong(total(x.ig), m.sums[2])
}

/// A challenge of the check of the entries slips: the one that blends the three tables, one
/// that weighs the defects, the coin, or one of a round.
pub open spec fn left_slip(m: MemoryRun, g: GroupView, x: MemoryVectors) -> bool {
    let kr = entry_keys(g.row, x.e_row, m.alpha, m.br);
    let kc = entry_keys(g.col, x.e_col, m.alpha, m.bc);
    let kg = entry_keys(g.pow, x.e_pow, m.alpha, m.bp);
    let dr = defects(kr, x.ir);
    let dc = defects(kc, x.ic);
    let dg = defects(kg, x.ig);
    let d = blend(dr, dc, dg, m.rho);
    let sum = total(blend(x.ir, x.ic, x.ig, m.rho));
    ||| exists|i: int| 0 <= i < dr.len() && blended(#[trigger] dr[i], dc[i], dg[i], m.rho)
    ||| blended(
        total(x.ir) - m.sums[0],
        total(x.ic) - m.sums[1],
        total(x.ig) - m.sums[2],
        m.rho,
    )
    ||| vanished(d, m.req)
    ||| cancelled(mle(d, m.req), sum, blended_sums(m.sums, m.rho), m.coin)
    ||| met(
        m.coin * blended_sums(m.sums, m.rho),
        log2_ceil(m.len) as int,
        3,
        m.start,
        logup_combined(),
        seq![m.rho, m.rho * m.rho, m.coin],
        seq![kr, x.ir, kc, x.ic, kg, x.ig, eq_table(m.req).take(m.len)],
        m.len,
    )
}

/// A sum of a blend is the blend of the sums.
proof fn lemma_blend_total(a: Seq<int>, b: Seq<int>, c: Seq<int>, rho: int)
    requires
        a.len() == b.len(),
        a.len() == c.len(),
    ensures
        total(blend(a, b, c, rho)) == total(a) + rho * total(b) + rho * rho * total(c),
{
    let n = a.len() as int;
    let fa = |i: int| a[i];
    let fb = |i: int| b[i];
    let fc = |i: int| c[i];
    let rb = |i: int| rho * fb(i);
    let rc = |i: int| (rho * rho) * fc(i);
    let ab = |i: int| fa(i) + rb(i);
    let abc = |i: int| ab(i) + rc(i);
    lemma_sum_scale(n, rho, fb);
    lemma_sum_scale(n, rho * rho, fc);
    lemma_sum_add(n, fa, rb);
    lemma_sum_add(n, ab, rc);
    lemma_sum_eq(n, |i: int| blend(a, b, c, rho)[i], abc);
}

/// The claim on the keys of entries.
proof fn lemma_key_claim(
    idx: Seq<int>,
    e: Seq<int>,
    alpha: int,
    beta: int,
    p: Seq<int>,
    v: int,
    w: int,
    t: int,
)
    requires
        idx.len() == e.len(),
        cong(v, alpha * ones_prefix(p, idx.len() as int) + w + beta * t),
        cong(w, mle(idx, p)),
        cong(t, mle(e, p)),
    ensures
        cong(v, mle(entry_keys(idx, e, alpha, beta), p)),
{
    lemma_mle_shifted(affine(idx, e, beta), alpha, p);
    lemma_mle_affine(idx, e, beta, p);
    let o = alpha * ones_prefix(p, idx.len() as int);
    lemma_cong_ops(beta, beta, t, mle(e, p));
    lemma_cong_ops(w, mle(idx, p), beta * t, beta * mle(e, p));
    lemma_cong_ops(o, o, w + beta * t, mle(idx, p) + beta * mle(e, p));
}

/// The value of the expression at the challenges.
proof fn lemma_blend_claim(
    v: Seq<int>,
    x: Seq<int>,
    rho: int,
    coin: int,
    q: int,
)
    requires
        forall|i: int| 0 <= i < 6 ==> cong(#[trigger] v[i], x[i]),
    ensures
        cong(
            ((v[0] * v[1] - 1) + rho * (v[2] * v[3] - 1) + rho * rho * (v[4] * v[5] - 1)) * q
                + coin * (v[1] + rho * v[3] + rho * rho * v[5]),
            ((x[0] * x[1] - 1) + rho * (x[2] * x[3] - 1) + rho * rho * (x[4] * x[5] - 1)) * q
                + coin * (x[1] + rho * x[3] + rho * rho * x[5]),
        ),
{
    let r2 = rho * rho;
    assert(cong(v[0], x[0]) && cong(v[1], x[1]) && cong(v[2], x[2]));
    assert(cong(v[3], x[3]) && cong(v[4], x[4]) && cong(v[5], x[5]));
    lemma_cong_ops(v[0], x[0], v[1], x[1]);
    lemma_cong_ops(v[2], x[2], v[3], x[3]);
    lemma_cong_ops(v[4], x[4], v[5], x[5]);
    let a = v[0] * v[1];
    let b = v[2] * v[3];
    let c = v[4] * v[5];
    let d = x[0] * x[1];
    let e = x[2] * x[3];
    let f = x[4] * x[5];
    lemma_cong_ops(a, d, 1, 1);
    lemma_cong_ops(b, e, 1, 1);
    lemma_cong_ops(c, f, 1, 1);
    lemma_cong_ops(rho, rho, b - 1, e - 1);
    lemma_cong_ops(r2, r2, c - 1, f - 1);
    lemma_cong_ops(a - 1, d - 1, rho * (b - 1), rho * (e - 1));
    lemma_cong_ops(
        (a - 1) + rho * (b - 1),
        (d - 1) + rho * (e - 1),
        r2 * (c - 1),
        r2 * (f - 1),
    );
    let g = (a - 1) + rho * (b - 1) + r2 * (c - 1);
    let h = (d - 1) + rho * (e - 1) + r2 * (f - 1);
    lemma_cong_ops(g, h, q, q);
    lemma_cong_ops(rho, rho, v[3], x[3]);
    lemma_cong_ops(r2, r2, v[5], x[5]);
    lemma_cong_ops(v[1], x[1], rho * v[3], rho * x[3]);
    lemma_cong_ops(v[1] + rho * v[3], x[1] + rho * x[3], r2 * v[5], r2 * x[5]);
    let s = v[1] + rho * v[3] + r2 * v[5];
    let t = x[1] + rho * x[3] + r2 * x[5];
    lemma_cong_ops(coin, coin, s, t);
    lemma_cong_ops(g * q, h * q, coin * s, coin * t);
}

/// A right sum of weighted defects and of a vector shows that the defects are zero and the
/// vector adds up, or a challenge slips.
proof fn lemma_defect_side(
    d: Seq<int>,
    weighed: Seq<int>,
    claim: int,
    req: Seq<int>,
    coin: int,
    f: spec_fn(int) -> int,
)
    requires
        d.len() <= pow2(req.len()),
        weighed.len() == d.len(),
        forall|j: int|
            0 <= j < d.len() ==> #[trigger] f(j) == d[j] * eq_at(req, j) + coin * weighed[j],
        cong(coin * claim, sum_to(d.len() as int, f)),
    ensures
        ({
            ||| all_zero(d) && cong(total(weighed), claim)
            ||| vanished(d, req)
            ||| cancelled(mle(d, req), total(weighed), claim, coin)
        }),
{
    let n = d.len() as int;
    let a = |j: int| d[j] * eq_at(req, j);
    let w = |j: int| weighed[j];
    let b = |j: int| coin * w(j);
    let ab = |j: int| a(j) + b(j);
    assert forall|j: int| 0 <= j < n implies #[trigger] f(j) == ab(j) by {}
    lemma_sum_eq(n, f, ab);
    lemma_sum_add(n, a, b);
    lemma_sum_scale(n, coin, w);
    assert(coin * claim == claim * coin) by (nonlinear_arith);
    assert(cong(mle(d, req) + coin * total(weighed), claim * coin));
    if cong(mle(d, req), 0) {
        law_nonzero(d, req);
    }
}

#[verifier::rlimit(60)]
proof fn lemma_left_shown(st: State, g: GroupView, x: MemoryVectors)
    requires
        vectors_fit(g, x),
        memory_run(st).end.ok,
        memory_run(st).len == g.row.len(),
        entries_right(memory_run(st), g, x),
    ensures
        left_right(memory_run(st), g, x) || left_slip(memory_run(st), g, x),
{
    let m = memory_run(st);
    let n = g.row.len() as int;
    let nv = log2_ceil(n) as int;
    let rho = m.rho;
    let claim = blended_sums(m.sums, rho);
    let (p, y, st9) = verify_rounds(m.coin * claim, nv, 3, m.start);
    let kr = entry_keys(g.row, x.e_row, m.alpha, m.br);
    let kc = entry_keys(g.col, x.e_col, m.alpha, m.bc);
    let kg = entry_keys(g.pow, x.e_pow, m.alpha, m.bp);
    let dr = defects(kr, x.ir);
    let dc = defects(kc, x.ic);
    let dg = defects(kg, x.ig);
    let d = blend(dr, dc, dg, rho);
    let weighed = blend(x.ir, x.ic, x.ig, rho);
    let tabs = seq![kr, x.ir, kc, x.ic, kg, x.ig, eq_table(m.req).take(n)];
    let coins = seq![rho, rho * rho, m.coin];
    let gate = logup_combined();
    assert(p == m.point);
    lemma_log2_ceil(n);
    lemma_gate_degrees();
    reveal_with_fuel(gate_fits, 9);
    lemma_vanishing(coins);
    assert(m.req.len() == nv);
    assert(same_len(tabs, n)) by {
        assert forall|i: int| 0 <= i < tabs.len() implies (#[trigger] tabs[i]).len() == n by {}
    }
    let u = values_at(tabs, p);
    lemma_gate_values(u, coins);
    lemma_mle_eq_take(m.req, p, n);
    assert forall|i: int| 0 <= i < 7 implies #[trigger] u[i] == mle(tabs[i], p) by {}
    lemma_key_claim(g.row, x.e_row, m.alpha, m.br, p, m.v[0], m.w[0], m.w[3]);
    lemma_key_claim(g.col, x.e_col, m.alpha, m.bc, p, m.v[2], m.w[1], m.w[4]);
    lemma_key_claim(g.pow, x.e_pow, m.alpha, m.bp, p, m.v[4], m.w[2], m.w[5]);
    assert(tabs[0] == kr && tabs[1] == x.ir && tabs[2] == kc && tabs[3] == x.ic);
    assert(tabs[4] == kg && tabs[5] == x.ig && tabs[6] == eq_table(m.req).take(n));
    assert(u[0] == mle(kr, p) && u[1] == mle(x.ir, p) && u[2] == mle(kc, p));
    assert(u[3] == mle(x.ic, p) && u[4] == mle(kg, p) && u[5] == mle(x.ig, p));
    lemma_blend_claim(m.v, u, rho, m.coin, u[6]);
    law_sound_rounds(gate, coins, tabs, n, 3, nv, m.coin * claim, m.start);
    let f = |j: int| row_value(gate, coins, tabs, j);
    if cong(m.coin * claim, sum_to(n, f)) {
        assert forall|j: int| 0 <= j < n implies #[trigger] f(j) == d[j] * eq_at(m.req, j) + m.coin
            * weighed[j] by {
            let z = row_at(tabs, j);
            lemma_gate_values(z, coins);
            assert(z[0] == at(tabs[0], j));
            assert(z[1] == at(tabs[1], j));
            assert(z[2] == at(tabs[2], j));
            assert(z[3] == at(tabs[3], j));
            assert(z[4] == at(tabs[4], j));
            assert(z[5] == at(tabs[5], j));
            assert(z[6] == at(tabs[6], j));
        }
        lemma_defect_side(d, weighed, claim, m.req, m.coin, f);
        if all_zero(d) && cong(total(weighed), claim) {
            lemma_unblend(m, g, x);
        }
    }
}

/// Where the blends are right, each part is, or the challenge that blends them slips.
proof fn lemma_unblend(m: MemoryRun, g: GroupView, x: MemoryVectors)
    requires
        vectors_fit(g, x),
        ({
            let dr = defects(entry_keys(g.row, x.e_row, m.alpha, m.br), x.ir);
            let dc = defects(entry_keys(g.col, x.e_col, m.alpha, m.bc), x.ic);
            let dg = defects(entry_keys(g.pow, x.e_pow, m.alpha, m.bp), x.ig);
            all_zero(blend(dr, dc, dg, m.rho))
        }),
        cong(total(blend(x.ir, x.ic, x.ig, m.rho)), blended_sums(m.sums, m.rho)),
    ensures
        left_right(m, g, x) || left_slip(m, g, x),
{
    let rho = m.rho;
    let dr = defects(entry_keys(g.row, x.e_row, m.alpha, m.br), x.ir);
    let dc = defects(entry_keys(g.col, x.e_col, m.alpha, m.bc), x.ic);
    let dg = defects(entry_keys(g.pow, x.e_pow, m.alpha, m.bp), x.ig);
    let d = blend(dr, dc, dg, rho);
    let a = total(x.ir);
    let b = total(x.ic);
    let c = total(x.ig);
    let s = m.sums;
    lemma_blend_total(x.ir, x.ic, x.ig, rho);
    let claim = blended_sums(s, rho);
    lemma_cong_ops(a + rho * b + rho * rho * c, claim, claim, claim);
    let r2 = rho * rho;
    assert((a + rho * b + r2 * c) - (s[0] + rho * s[1] + r2 * s[2]) == (a - s[0]) + rho * (b
        - s[1]) + r2 * (c - s[2])) by (nonlinear_arith);
    if blended(a - s[0], b - s[1], c - s[2], rho) {
    } else if exists|i: int| 0 <= i < dr.len() && blended(#[trigger] dr[i], dc[i], dg[i], rho) {
    } else {
        lemma_cong_ops(a - s[0], 0, s[0], s[0]);
        lemma_cong_ops(b - s[1], 0, s[1], s[1]);
        lemma_cong_ops(c - s[2], 0, s[2], s[2]);
        assert forall|i: int|
            #![trigger dr[i]]
            #![trigger dc[i]]
            #![trigger dg[i]]
            0 <= i < dr.len() implies cong(dr[i], 0) && cong(dc[i], 0) && cong(dg[i], 0) by {
            assert(cong(d[i], 0));
            assert(!blended(dr[i], dc[i], dg[i], rho));
        }
        assert(all_zero(dr) && all_zero(dc) && all_zero(dg));
    }
}

/// What is looked up for a table: the keys of the entries, among those of the table.
pub open spec fn read_fractions(
    idx: Seq<int>,
    e: Seq<int>,
    tab: Seq<int>,
    alpha: int,
    beta: int,
    inv: Seq<int>,
    tab_inv: Seq<int>,
    count: Seq<int>,
) -> Fractions {
    Fractions {
        ele: entry_keys(idx, e, alpha, beta),
        ele_inv: inv,
        tab: table_keys(tab, alpha, beta),
        tab_inv,
        count,
    }
}

/// Two numbers that are not both zero cancel, the second weighted by a challenge.
pub open spec fn crossed(a: int, b: int, beta: int) -> bool {
    &&& cong(a + beta * b, 0)
    &&& !(cong(a, 0) && cong(b, 0))
}

/// An entry that is not read from the table is hidden by the challenge that shifts the
/// keys, or taken for another row by the one that joins number and entry.
pub open spec fn read_slip(
    idx: Seq<int>,
    e: Seq<int>,
    tab: Seq<int>,
    alpha: int,
    beta: int,
    inv: Seq<int>,
    tab_inv: Seq<int>,
    count: Seq<int>,
) -> bool {
    let w = read_fractions(idx, e, tab, alpha, beta, inv, tab_inv, count);
    ||| exists|i: int|
        0 <= i < idx.len() && hidden(lookup_shares(w, alpha), #[trigger] w.ele[i] - alpha, alpha)
    ||| exists|i: int, j: int|
        0 <= i < idx.len() && 0 <= j < tab.len() && crossed(
            j - #[trigger] idx[i],
            #[trigger] tab[j] - e[i],
            beta,
        )
}

/// The entries are what the table has at the indices.
pub open spec fn reads_right(idx: Seq<int>, e: Seq<int>, tab: Seq<int>) -> bool {
    forall|i: int| 0 <= i < idx.len() ==> cong(#[trigger] e[i], tab[idx[i]])
}

proof fn lemma_reads_shown(
    idx: Seq<int>,
    e: Seq<int>,
    tab: Seq<int>,
    alpha: int,
    beta: int,
    claim: int,
    inv: Seq<int>,
    tab_inv: Seq<int>,
    count: Seq<int>,
)
    requires
        idx.len() == e.len(),
        idx.len() == inv.len(),
        tab_inv.len() == tab.len(),
        count.len() == tab.len(),
        tab.len() <= usize::MAX,
        idx.len() <= usize::MAX,
        below(idx, tab.len() as int),
        all_zero(defects(entry_keys(idx, e, alpha, beta), inv)),
        cong(total(inv), claim),
        right_right(alpha, beta, claim, tab, tab_inv, count),
    ensures
        reads_right(idx, e, tab) || read_slip(idx, e, tab, alpha, beta, inv, tab_inv, count),
{
    let w = read_fractions(idx, e, tab, alpha, beta, inv, tab_inv, count);
    lemma_modulus();
    law_members(w, alpha);
    if !read_slip(idx, e, tab, alpha, beta, inv, tab_inv, count) {
        assert forall|i: int| 0 <= i < idx.len() implies cong(#[trigger] e[i], tab[idx[i]]) by {
            let k = w.ele[i];
            assert(!hidden(lookup_shares(w, alpha), k - alpha, alpha));
            assert(in_table(w, k));
            let j = choose|j: int| 0 <= j < w.tab.len() && cong(#[trigger] w.tab[j], k);
            let a = j + beta * tab[j];
            let b = idx[i] + beta * e[i];
            assert(w.tab[j] == a + alpha && k == b + alpha);
            lemma_cong_ops(a + alpha, b + alpha, alpha, alpha);
            lemma_cong_ops(a, b, b, b);
            let x = tab[j];
            let y = e[i];
            assert(beta * (x - y) == beta * x - beta * y) by (nonlinear_arith);
            assert(!crossed(j - idx[i], tab[j] - e[i], beta));
            lemma_cong_ops(j - idx[i], 0, idx[i], idx[i]);
            lemma_residue_small(j);
            lemma_residue_small(idx[i]);
            assert(j == idx[i]);
            lemma_cong_ops(x - y, 0, y, y);
        }
    }
}

/// The state after the check of a table.
pub open spec fn right_end(
    st: State,
    alpha: int,
    beta: int,
    claim: int,
    log_n: nat,
    shape: ShapeView,
) -> State {
    let none = VerAcc { commits: Seq::empty(), points: Seq::empty(), values: Seq::empty() };
    verify_right(st, alpha, beta, claim, log_n, shape, Seq::empty(), Seq::empty(), none).0
}

/// The state after a check of a table does not depend on the commitments.
proof fn lemma_right_end(
    st: State,
    alpha: int,
    beta: int,
    claim: int,
    log_n: nat,
    shape: ShapeView,
    inv: Seq<int>,
    count: Seq<int>,
    acc: VerAcc,
)
    ensures
        verify_right(st, alpha, beta, claim, log_n, shape, inv, count, acc).0 == right_end(
            st,
            alpha,
            beta,
            claim,
            log_n,
            shape,
        ),
        ({
            let out = verify_right(st, alpha, beta, claim, log_n, shape, inv, count, acc).1;
            &&& out.values.len() == acc.values.len() + 2
            &&& out.points.len() == acc.points.len() + 2
            &&& out.commits == acc.commits.push(inv).push(count)
            &&& out.values.take(acc.values.len() as int) == acc.values
            &&& out.points.take(acc.points.len() as int) == acc.points
        }),
{
    reveal(verify_right);
    let out = verify_right(st, alpha, beta, claim, log_n, shape, inv, count, acc).1;
    assert(out.values.take(acc.values.len() as int) =~= acc.values);
    assert(out.points.take(acc.points.len() as int) =~= acc.points);
}

/// A check of the reads of a group: its shapes, and the tables that they are of.
pub ghost struct Tables {
    pub row_shape: ShapeView,
    pub col_shape: ShapeView,
    pub pow_shape: ShapeView,
    pub row: Seq<int>,
    pub col: Seq<int>,
    pub pow: Seq<int>,
}

impl Tables {
    /// The tables have those shapes, and the sizes that the group is for.
    pub open spec fn shaped(self, g: GroupView) -> bool {
        &&& shape_of(self.row_shape, self.row, g.log_row)
        &&& shape_of(self.col_shape, self.col, g.log_col)
        &&& shape_of(self.pow_shape, self.pow, g.log_pow)
    }
}

/// The states in which the checks of the second and the third table start.
pub open spec fn later_starts(st: State, g: GroupView, t: Tables) -> (State, State) {
    let m = memory_run(st);
    let s1 = right_end(m.end, m.alpha, m.br, m.sums[0], g.log_row, t.row_shape);
    let s2 = right_end(s1, m.alpha, m.bc, m.sums[1], g.log_col, t.col_shape);
    (s1, s2)
}

/// The lengths that the check of the reads of a group reads are those of the entries and of
/// the tables.
pub open spec fn memory_lengths(st: State, g: GroupView, t: Tables) -> bool {
    let m = memory_run(st);
    let (s1, s2) = later_starts(st, g, t);
    &&& m.len == g.row.len()
    &&& right_start(m.end, g.log_row).0 == t.row.len()
    &&& right_start(s1, g.log_col).0 == t.col.len()
    &&& right_start(s2, g.log_pow).0 == t.pow.len()
}

/// A challenge of the check of the reads of a group slips.
pub open spec fn memory_slip(st: State, g: GroupView, t: Tables, x: MemoryVectors) -> bool {
    let m = memory_run(st);
    let (s1, s2) = later_starts(st, g, t);
    ||| left_slip(m, g, x)
    ||| right_slip(m.end, m.alpha, m.br, m.sums[0], g.log_row, t.row, x.vr, g.count_row)
    ||| right_slip(s1, m.alpha, m.bc, m.sums[1], g.log_col, t.col, x.vc, g.count_col)
    ||| right_slip(s2, m.alpha, m.bp, m.sums[2], g.log_pow, t.pow, x.vg, g.count_pow)
    ||| read_slip(g.row, x.e_row, t.row, m.alpha, m.br, x.ir, x.vr, g.count_row)
    ||| read_slip(g.col, x.e_col, t.col, m.alpha, m.bc, x.ic, x.vc, g.count_col)
    ||| read_slip(g.pow, x.e_pow, t.pow, m.alpha, m.bp, x.ig, x.vg, g.count_pow)
}

/// The polynomials that the check of the reads of a group leaves claims on.
pub open spec fn memory_polys(g: GroupView, x: MemoryVectors) -> Seq<Seq<int>> {
    seq![
        g.row,
        g.col,
        g.pow,
        x.e_row,
        x.e_col,
        x.e_pow,
        x.ir,
        x.ic,
        x.ig,
        x.vr,
        g.count_row,
        x.vc,
        g.count_col,
        x.vg,
        g.count_pow,
    ]
}

/// Claims are right of polynomials.
pub open spec fn claims_right(acc: VerAcc, polys: Seq<Seq<int>>) -> bool {
    &&& acc.values.len() == polys.len()
    &&& acc.points.len() == polys.len()
    &&& forall|i: int|
        0 <= i < polys.len() ==> cong(#[trigger] acc.values[i], mle(polys[i], acc.points[i]))
}

/// A check of the reads of a group that is accepted, and leaves right claims on vectors,
/// shows that these hold what the tables have at the indices of the entries; unless a
/// challenge slips.
#[verifier::rlimit(60)]
pub proof fn law_sound_memory(
    gc: GroupCommits,
    e_row: Seq<int>,
    e_col: Seq<int>,
    e_pow: Seq<int>,
    st: State,
    acc: VerAcc,
    before: Seq<Seq<int>>,
    g: GroupView,
    t: Tables,
    x: MemoryVectors,
)
    requires
        crate::sparse::group_ok(g),
        vectors_fit(g, x),
        t.shaped(g),
        x.vr.len() == t.row.len(),
        x.vc.len() == t.col.len(),
        x.vg.len() == t.pow.len(),
        gc.log_row == g.log_row,
        gc.log_col == g.log_col,
        gc.log_pow == g.log_pow,
        before.len() == acc.values.len(),
        acc.points.len() == acc.values.len(),
        memory_lengths(st, g, t),
        ({
            let (end, out) = verify_memory(
                gc,
                e_row,
                e_col,
                e_pow,
                t.row_shape,
                t.col_shape,
                t.pow_shape,
                st,
                acc,
            );
            end.ok && claims_right(out, before + memory_polys(g, x))
        }),
    ensures
        ({
            ||| reads_right(g.row, x.e_row, t.row) && reads_right(g.col, x.e_col, t.col)
                && reads_right(g.pow, x.e_pow, t.pow)
            ||| memory_slip(st, g, t, x)
        }),
{
    let m = memory_run(st);
    let s = m.sums;
    let (s1, s2) = later_starts(st, g, t);
    let a3 = entry_claims(gc, e_row, e_col, e_pow, m, acc);
    let r1 = verify_right(
        m.end,
        m.alpha,
        m.br,
        s[0],
        g.log_row,
        t.row_shape,
        m.vr,
        gc.count_row,
        a3,
    );
    let a4 = r1.1;
    let r2 = verify_right(
        s1,
        m.alpha,
        m.bc,
        s[1],
        g.log_col,
        t.col_shape,
        m.vc,
        gc.count_col,
        a4,
    );
    let a5 = r2.1;
    let r3 = verify_right(
        s2,
        m.alpha,
        m.bp,
        s[2],
        g.log_pow,
        t.pow_shape,
        m.vg,
        gc.count_pow,
        a5,
    );
    let out = r3.1;
    lemma_memory_run(
        gc,
        e_row,
        e_col,
        e_pow,
        t.row_shape,
        t.col_shape,
        t.pow_shape,
        st,
        acc,
    );
    lemma_right_end(
        m.end,
        m.alpha,
        m.br,
        s[0],
        g.log_row,
        t.row_shape,
        m.vr,
        gc.count_row,
        a3,
    );
    lemma_right_end(
        s1,
        m.alpha,
        m.bc,
        s[1],
        g.log_col,
        t.col_shape,
        m.vc,
        gc.count_col,
        a4,
    );
    lemma_right_end(
        s2,
        m.alpha,
        m.bp,
        s[2],
        g.log_pow,
        t.pow_shape,
        m.vg,
        gc.count_pow,
        a5,
    );
    assert(r1.0 == s1 && r2.0 == s2);
    assert(verify_memory(
        gc,
        e_row,
        e_col,
        e_pow,
        t.row_shape,
        t.col_shape,
        t.pow_shape,
        st,
        acc,
    ) == r3);
    lemma_right_ok(
        s2,
        m.alpha,
        m.bp,
        s[2],
        g.log_pow,
        t.pow_shape,
        m.vg,
        gc.count_pow,
        a5,
    );
    lemma_right_ok(
        s1,
        m.alpha,
        m.bc,
        s[1],
        g.log_col,
        t.col_shape,
        m.vc,
        gc.count_col,
        a4,
    );
    lemma_right_ok(
        m.end,
        m.alpha,
        m.br,
        s[0],
        g.log_row,
        t.row_shape,
        m.vr,
        gc.count_row,
        a3,
    );
    let polys = before + memory_polys(g, x);
    let n = before.len() as int;
    lemma_memory_claims(gc, e_row, e_col, e_pow, m, acc, a4, a5, out, before, g, x);
    lemma_left_shown(st, g, x);
    lemma_right_shown(
        m.end,
        m.alpha,
        m.br,
        s[0],
        g.log_row,
        t.row_shape,
        m.vr,
        gc.count_row,
        a3,
        t.row,
        x.vr,
        g.count_row,
    );
    lemma_right_shown(
        s1,
        m.alpha,
        m.bc,
        s[1],
        g.log_col,
        t.col_shape,
        m.vc,
        gc.count_col,
        a4,
        t.col,
        x.vc,
        g.count_col,
    );
    lemma_right_shown(
        s2,
        m.alpha,
        m.bp,
        s[2],
        g.log_pow,
        t.pow_shape,
        m.vg,
        gc.count_pow,
        a5,
        t.pow,
        x.vg,
        g.count_pow,
    );
    if !memory_slip(st, g, t, x) {
        lemma_reads_shown(
            g.row,
            x.e_row,
            t.row,
            m.alpha,
            m.br,
            s[0],
            x.ir,
            x.vr,
            g.count_row,
        );
        lemma_reads_shown(
            g.col,
            x.e_col,
            t.col,
            m.alpha,
            m.bc,
            s[1],
            x.ic,
            x.vc,
            g.count_col,
        );
        lemma_reads_shown(
            g.pow,
            x.e_pow,
            t.pow,
            m.alpha,
            m.bp,
            s[2],
            x.ig,
            x.vg,
            g.count_pow,
        );
    }
}

/// The claims that the check of the reads of a group leaves, one by one.
proof fn lemma_memory_claims(
    gc: GroupCommits,
    e_row: Seq<int>,
    e_col: Seq<int>,
    e_pow: Seq<int>,
    m: MemoryRun,
    acc: VerAcc,
    a4: VerAcc,
    a5: VerAcc,
    out: VerAcc,
    before: Seq<Seq<int>>,
    g: GroupView,
    x: MemoryVectors,
)
    requires
        before.len() == acc.values.len(),
        acc.points.len() == acc.values.len(),
        claims_right(out, before + memory_polys(g, x)),
        ({
            let a3 = entry_claims(gc, e_row, e_col, e_pow, m, acc);
            let n = acc.values.len() as int;
            &&& a4.values.len() == n + 11
            &&& a4.points.len() == n + 11
            &&& a5.values.len() == n + 13
            &&& a5.points.len() == n + 13
            &&& out.values.len() == n + 15
            &&& out.points.len() == n + 15
            &&& out.values.take(n + 13) == a5.values
            &&& out.points.take(n + 13) == a5.points
            &&& a5.values.take(n + 11) == a4.values
            &&& a5.points.take(n + 11) == a4.points
            &&& a4.values.take(n + 9) == a3.values
            &&& a4.points.take(n + 9) == a3.points
        }),
    ensures
        entries_right(m, g, x),
        two_right(a4, x.vr, g.count_row),
        two_right(a5, x.vc, g.count_col),
        two_right(out, x.vg, g.count_pow),
{
    let a3 = entry_claims(gc, e_row, e_col, e_pow, m, acc);
    let n = acc.values.len() as int;
    let polys = before + memory_polys(g, x);
    assert forall|i: int| 0 <= i < 15 implies #[trigger] polys[n + i] == memory_polys(g, x)[i] by {}
    assert forall|i: int| 0 <= i < n + 13 implies #[trigger] out.values[i] == a5.values[i] by {
        assert(out.values.take(n + 13)[i] == out.values[i]);
    }
    assert forall|i: int| 0 <= i < n + 13 implies #[trigger] out.points[i] == a5.points[i] by {
        assert(out.points.take(n + 13)[i] == out.points[i]);
    }
    assert forall|i: int| 0 <= i < n + 11 implies #[trigger] a5.values[i] == a4.values[i] by {
        assert(a5.values.take(n + 11)[i] == a5.values[i]);
    }
    assert forall|i: int| 0 <= i < n + 11 implies #[trigger] a5.points[i] == a4.points[i] by {
        assert(a5.points.take(n + 11)[i] == a5.points[i]);
    }
    assert forall|i: int| 0 <= i < n + 9 implies #[trigger] a4.values[i] == a3.values[i] by {
        assert(a4.values.take(n + 9)[i] == a4.values[i]);
    }
    assert forall|i: int| 0 <= i < n + 9 implies #[trigger] a4.points[i] == a3.points[i] by {
        assert(a4.points.take(n + 9)[i] == a4.points[i]);
    }
    assert forall|i: int| 0 <= i < 15 implies cong(
        out.values[n + i],
        mle(memory_polys(g, x)[i], #[trigger] out.points[n + i]),
    ) by {
        assert(cong(out.values[n + i], mle(polys[n + i], out.points[n + i])));
    }
    assert(a3.values =~= acc.values + seq![
        m.w[0],
        m.w[1],
        m.w[2],
        m.w[3],
        m.w[4],
        m.w[5],
        m.v[1],
        m.v[3],
        m.v[5],
    ]);
    assert forall|i: int| 0 <= i < 9 implies #[trigger] out.points[n + i] == m.point by {}
    assert(out.points[n + 0] == m.point && out.points[n + 1] == m.point);
    assert(out.points[n + 2] == m.point && out.points[n + 3] == m.point);
    assert(out.points[n + 4] == m.point && out.points[n + 5] == m.point);
    assert(out.points[n + 6] == m.point && out.points[n + 7] == m.point);
    assert(out.points[n + 8] == m.point);
    assert(a4.points[n + 9] == out.points[n + 9] && a4.points[n + 10] == out.points[n + 10]);
    assert(a5.points[n + 11] == out.points[n + 11] && a5.points[n + 12] == out.points[n + 12]);
    assert(a4.values[n + 9] == out.values[n + 9] && a4.values[n + 10] == out.values[n + 10]);
    assert(a5.values[n + 11] == out.values[n + 11] && a5.values[n + 12] == out.values[n + 12]);
    assert(out.points[n + 13] == out.points[n + 13] && out.points[n + 14] == out.points[n + 14]);
}

} // verus!
