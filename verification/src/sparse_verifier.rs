//! The verifier's side of the openings of sparse matrices.
use vstd::prelude::*;
use vstd::arithmetic::power::*;
use vstd::arithmetic::power2::*;
use crate::channel::{
    Channel, State, challenge, challenges, read_fs, read_len, read_list, read_points, require,
};
use crate::field::{Fr, cong, copied, tables, values};
use crate::group::points;
use crate::kzg::{
    Mkzg, MkzgCommit, MkzgProof, MkzgVerParams, SumcheckProof, VerParams, batch_verify_of,
    commit_tables,
};
use crate::poly::{MlPoly, eq_points, eq_prefix, min, ones_prefix};
use crate::sparse::{
    EntryCommits, GroupCommits, NUM_CLAIMS, SparseCommits, SparseEvals, cumulated, gamma_at,
    identity_at, indices, row_table_at, weight_at,
};
use crate::sparse_prover::pad_exec;
use crate::sumcheck::{
    lemma_log2_ceil, lemma_log2_fits, log2_ceil, log2_ceil_exec, verifier_sumcheck, verify_rounds,
};
use crate::sums::{lemma_pow2_step, product_to, sum_to};
use crate::util::{Proof, RandomOracle};

verus! {

/// Commitments, the points at which they are claimed to be opened, and the values
/// claimed there.
pub ghost struct VerAcc {
    pub commits: Seq<Seq<int>>,
    pub points: Seq<Seq<int>>,
    pub values: Seq<int>,
}

/// One more claim.
pub open spec fn ver_push(a: VerAcc, c: Seq<int>, p: Seq<int>, v: int) -> VerAcc {
    VerAcc { commits: a.commits.push(c), points: a.points.push(p), values: a.values.push(v) }
}

/// Commitments, points and claimed values.
pub struct VerifierAcc {
    pub commits: Vec<MkzgCommit>,
    pub points: Vec<Vec<Fr>>,
    pub values: Vec<Fr>,
}

impl View for VerifierAcc {
    type V = VerAcc;

    open spec fn view(&self) -> VerAcc {
        VerAcc {
            commits: commit_tables(self.commits@),
            points: tables(self.points@),
            values: values(self.values@),
        }
    }
}

impl VerifierAcc {
    /// As many commitments as points and values.
    pub open spec fn even(&self) -> bool {
        self.commits.len() == self.points.len() && self.points.len() == self.values.len()
    }

    /// No claim.
    pub fn new() -> (out: VerifierAcc)
        ensures
            out@ == (VerAcc {
                commits: Seq::empty(),
                points: Seq::empty(),
                values: Seq::empty(),
            }),
            out.even(),
    {
        let out = VerifierAcc { commits: Vec::new(), points: Vec::new(), values: Vec::new() };
        assert(out@.commits =~= Seq::empty());
        assert(out@.points =~= Seq::empty());
        assert(out@.values =~= Seq::empty());
        out
    }

    /// One more claim.
    pub fn push(&mut self, commit: MkzgCommit, point: Vec<Fr>, value: Fr)
        ensures
            final(self)@ == ver_push(old(self)@, commit@, values(point@), value@),
            old(self).even() ==> final(self).even(),
    {
        let ghost before = self@;
        self.commits.push(commit);
        self.points.push(point);
        self.values.push(value);
        assert(self@.commits =~= before.commits.push(commit@));
        assert(self@.points =~= before.points.push(values(point@)));
        assert(self@.values =~= before.values.push(value@));
    }
}

/// The shape of a table that the verifier can evaluate by itself.
pub ghost enum ShapeView {
    Rows(Seq<int>, Seq<int>),
    Eq(Seq<int>),
    Powers(int),
}

/// The value of a table at a point.
pub open spec fn shape_at(s: ShapeView, p: Seq<int>) -> int {
    match s {
        ShapeView::Rows(abc, de) => row_table_at(abc, de, p),
        ShapeView::Eq(q) => eq_points(q, p, min(q.len() as int, p.len() as int)),
        ShapeView::Powers(gamma) => gamma_at(p, gamma),
    }
}

/// A table that the verifier can evaluate by itself.
pub enum Shape {
    Rows(Vec<Fr>, Vec<Fr>),
    Eq(Vec<Fr>),
    Powers(Fr),
}

impl View for Shape {
    type V = ShapeView;

    open spec fn view(&self) -> ShapeView {
        match *self {
            Shape::Rows(abc, de) => ShapeView::Rows(values(abc@), values(de@)),
            Shape::Eq(p) => ShapeView::Eq(values(p@)),
            Shape::Powers(gamma) => ShapeView::Powers(gamma@),
        }
    }
}

/// The value at a point of the polynomial whose value at vertex `i` is `i`.
pub fn identity_mle(point: &Vec<Fr>) -> (out: Fr)
    ensures
        out@ == identity_at(values(point@)),
{
    let mut acc = Fr::zero();
    let mut p = Fr::one();
    let two = Fr::from_u64(2);
    let ghost pv = values(point@);
    proof {
        lemma_pow2_step(0);
    }
    for i in 0..point.len()
        invariant
            pv == values(point@),
            two@ == 2,
            p@ == pow2(i as nat),
            acc@ == sum_to(i as int, |i: int| pv[i] * pow2(i as nat)),
    {
        acc = acc + point[i] * p;
        proof {
            lemma_pow2_step(i as nat);
        }
        p = p * two;
    }
    acc
}

/// The value at a point of the polynomial whose value at vertex `i` is the power
/// `i` of `gamma`.
pub fn gamma_mle(point: &Vec<Fr>, gamma: Fr) -> (out: Fr)
    ensures
        out@ == gamma_at(values(point@), gamma@),
{
    let one = Fr::one();
    let mut acc = one;
    let mut p = gamma;
    let ghost pv = values(point@);
    proof {
        lemma_pow2_step(0);
        lemma_pow1(gamma@);
    }
    for i in 0..point.len()
        invariant
            pv == values(point@),
            one@ == 1,
            p@ == pow(gamma@, pow2(i as nat)),
            acc@ == product_to(
                i as int,
                |i: int| 1 + pv[i] * (pow(gamma@, pow2(i as nat)) - 1),
            ),
    {
        acc = acc * (one + point[i] * (p - one));
        proof {
            lemma_pow2_step(i as nat);
            lemma_pow_adds(gamma@, pow2(i as nat), pow2(i as nat));
        }
        p = p * p;
    }
    acc
}

fn row_table_mle(abc: &Vec<Fr>, de: &Vec<Fr>, point: &Vec<Fr>) -> (out: Fr)
    requires
        point.len() > 0,
    ensures
        out@ == row_table_at(values(abc@), values(de@), values(point@)),
{
    let log: usize = point.len() - 1;
    let lower = crate::sparse_prover::taken(point, log);
    let flag = point[log];
    let a = MlPoly::eval_eq(&pad_exec(abc, log), &lower);
    let d = MlPoly::eval_eq(&pad_exec(de, log), &lower);
    a * (Fr::one() - flag) + d * flag
}

impl Shape {
    /// The value of the table at a point.
    pub fn eval(&self, point: &Vec<Fr>) -> (out: Fr)
        requires
            point.len() > 0,
        ensures
            out@ == shape_at(self@, values(point@)),
    {
        match self {
            Shape::Rows(abc, de) => row_table_mle(abc, de, point),
            Shape::Eq(p) => MlPoly::eval_eq(p, point),
            Shape::Powers(gamma) => gamma_mle(point, *gamma),
        }
    }
}

/// The value at a point of the polynomial that is the power `i` of `r` on slice
/// `i`.
pub fn weight_mle(point: &Vec<Fr>, lens: &Vec<usize>, r: Fr) -> (out: Fr)
    requires
        pow2(point.len() as nat) <= usize::MAX,
    ensures
        out@ == weight_at(values(point@), indices(lens@), r@, lens.len() as int),
{
    let ghost pv = values(point@);
    let ghost lv = indices(lens@);
    let ghost top = pow2(point.len() as nat) as int;
    let mut acc = Fr::zero();
    let mut rp = Fr::one();
    let mut cum: usize = 0;
    proof {
        lemma_pow0(r@);
    }
    for i in 0..lens.len()
        invariant
            pv == values(point@),
            lv == indices(lens@),
            top == pow2(point.len() as nat),
            top <= usize::MAX,
            rp@ == pow(r@, i as nat),
            cumulated(lv, i as int) >= 0,
            cum == min(cumulated(lv, i as int), usize::MAX as int),
            acc@ == sum_to(
                i as int,
                |i: int|
                    pow(r@, i as nat) * (ones_prefix(pv, min(cumulated(lv, i + 1), top))
                        - ones_prefix(pv, min(cumulated(lv, i), top))),
            ),
    {
        let lo = MlPoly::eval_ones_pref(point.as_slice(), cum);
        let next: usize = if cum <= usize::MAX - lens[i] {
            cum + lens[i]
        } else {
            usize::MAX
        };
        proof {
            assert(lv[i as int] == lens[i as int]);
            assert(cumulated(lv, i + 1) == cumulated(lv, i as int) + lens[i as int]);
            assert(next == min(cumulated(lv, i + 1), usize::MAX as int));
        }
        let hi = MlPoly::eval_ones_pref(point.as_slice(), next);
        acc = acc + rp * (hi - lo);
        proof {
            reveal(pow);
            assert(pow(r@, (i + 1) as nat) == r@ * pow(r@, i as nat));
            assert(rp@ * r@ == r@ * rp@) by (nonlinear_arith);
        }
        rp = rp * r;
        cum = next;
    }
    acc
}

/// Checks the right-hand side of one table.
#[verifier::opaque]
pub open spec fn verify_right(
    st: State,
    alpha: int,
    beta: int,
    claim: int,
    log_n: nat,
    shape: ShapeView,
    inv: Seq<int>,
    count: Seq<int>,
    acc: VerAcc,
) -> (State, VerAcc) {
    let (st1, len) = read_len(st, 0);
    let nv = log2_ceil(len) as int;
    let st2 = require(st1, nv == log_n);
    let (st3, req) = challenges(st2, nv);
    let (st4, r) = challenge(st3);
    let (p, y, st5) = verify_rounds(claim * r, nv, 3, st4);
    let (st6, v) = read_fs(st5, 3);
    let eq = eq_prefix(req, p, len);
    let st7 = require(st6, cong(y, (v[0] * v[1] - 1) * eq + r * v[1] * v[2]));
    let st8 = require(st7, cong(v[0], alpha + identity_at(p) + beta * shape_at(shape, p)));
    (st8, ver_push(ver_push(acc, inv, p, v[1]), count, p, v[2]))
}

/// Checks the reads of a group from its three tables.
#[verifier::opaque]
pub open spec fn verify_memory(
    g: GroupCommits,
    e_row: Seq<int>,
    e_col: Seq<int>,
    e_pow: Seq<int>,
    tr: ShapeView,
    tc: ShapeView,
    tg: ShapeView,
    st: State,
    acc: VerAcc,
) -> (State, VerAcc) {
    let (st1, c) = challenges(st, 5);
    let br = c[0];
    let bc = c[1];
    let bp = c[2];
    let alpha = c[3];
    let rho = c[4];
    let (st2, ir) = read_points(st1);
    let (st3, ic) = read_points(st2);
    let (st4, ig) = read_points(st3);
    let (st5, s) = read_fs(st4, 3);
    let (st6, len) = read_len(st5, 0);
    let nv = log2_ceil(len) as int;
    let (st7, req) = challenges(st6, nv);
    let (st8, r) = challenge(st7);
    let rho2 = rho * rho;
    let (p, y, st9) = verify_rounds(r * (s[0] + rho * s[1] + rho2 * s[2]), nv, 3, st8);
    let (st10, v) = read_fs(st9, 6);
    let eq = eq_prefix(req, p, len);
    let st11 = require(
        st10,
        cong(
            y,
            ((v[0] * v[1] - 1) + rho * (v[2] * v[3] - 1) + rho2 * (v[4] * v[5] - 1)) * eq + r * (
            v[1] + rho * v[3] + rho2 * v[5]),
        ),
    );
    let (st12, w) = read_fs(st11, 6);
    let ones = ones_prefix(p, len);
    let st13 = require(st12, cong(v[0], alpha * ones + w[0] + br * w[3]));
    let st14 = require(st13, cong(v[2], alpha * ones + w[1] + bc * w[4]));
    let st15 = require(st14, cong(v[4], alpha * ones + w[2] + bp * w[5]));
    let a1 = ver_push(ver_push(ver_push(acc, g.row, p, w[0]), g.col, p, w[1]), g.pow, p, w[2]);
    let a2 = ver_push(ver_push(ver_push(a1, e_row, p, w[3]), e_col, p, w[4]), e_pow, p, w[5]);
    let a3 = ver_push(ver_push(ver_push(a2, ir, p, v[1]), ic, p, v[3]), ig, p, v[5]);
    let (st16, vr) = read_points(st15);
    let (st17, vc) = read_points(st16);
    let (st18, vg) = read_points(st17);
    let (st19, a4) = verify_right(st18, alpha, br, s[0], g.log_row, tr, vr, g.count_row, a3);
    let (st20, a5) = verify_right(st19, alpha, bc, s[1], g.log_col, tc, vc, g.count_col, a4);
    verify_right(st20, alpha, bp, s[2], g.log_pow, tg, vg, g.count_pow, a5)
}

/// The claims weighted by the powers of `r`.
pub open spec fn weighted(claims: Seq<int>, r: int) -> int {
    sum_to(claims.len() as int, |i: int| pow(r, i as nat) * claims[i])
}

/// Checks the values of the matrices on the suffix columns.
#[verifier::opaque]
pub open spec fn verify_suffix(
    g: GroupCommits,
    lens: Seq<int>,
    abc: Seq<int>,
    de: Seq<int>,
    col_point: Seq<int>,
    gamma: int,
    claims: Seq<int>,
    st: State,
    acc: VerAcc,
) -> (State, VerAcc) {
    let st0 = require(st, col_point.len() == g.log_col && claims.len() == lens.len());
    let (st1, e_row) = read_points(st0);
    let (st2, e_col) = read_points(st1);
    let (st3, e_pow) = read_points(st2);
    let (st4, r) = challenge(st3);
    let (st5, v) = read_points(st4);
    let (st6, len) = read_len(st5, 0);
    let nv = log2_ceil(len) as int;
    let (p1, y1, st7) = verify_rounds(weighted(claims, r), nv, 4, st6);
    let (st8, x) = read_fs(st7, 4);
    let st9 = require(st8, cong(y1, x[0] * x[1] * x[2] * x[3]));
    let (st10, len2) = read_len(st9, 0);
    let st11 = require(st10, log2_ceil(len2) == nv);
    let (p2, y2, st12) = verify_rounds(x[3], nv, 3, st11);
    let (st13, t) = read_fs(st12, 3);
    let st14 = require(
        st13,
        cong(t[0], eq_prefix(p1, p2, min(len2, pow2(nv as nat) as int))),
    );
    let st15 = require(st14, cong(t[1], weight_at(p2, lens, r, lens.len() as int)));
    let st16 = require(st15, cong(y2, t[0] * t[1] * t[2]));
    let a1 = ver_push(
        ver_push(ver_push(acc, e_row, p1, x[0]), e_col, p1, x[1]),
        e_pow,
        p1,
        x[2],
    );
    let a2 = ver_push(ver_push(a1, v, p1, x[3]), g.val, p2, t[2]);
    verify_memory(
        g,
        e_row,
        e_col,
        e_pow,
        ShapeView::Rows(abc, de),
        ShapeView::Eq(col_point),
        ShapeView::Powers(gamma),
        st16,
        a2,
    )
}

/// Checks the value of the second matrix on the prefix columns.
#[verifier::opaque]
pub open spec fn verify_prefix(
    g: GroupCommits,
    row_point: Seq<int>,
    col_point: Seq<int>,
    gamma: int,
    claim: int,
    st: State,
    acc: VerAcc,
) -> (State, VerAcc) {
    let st0 = require(st, row_point.len() == g.log_row && col_point.len() == g.log_col);
    let (st1, e_row) = read_points(st0);
    let (st2, e_col) = read_points(st1);
    let (st3, e_pow) = read_points(st2);
    let (st4, len) = read_len(st3, 0);
    let nv = log2_ceil(len) as int;
    let (p1, y1, st5) = verify_rounds(claim, nv, 4, st4);
    let (st6, x) = read_fs(st5, 4);
    let st7 = require(st6, cong(y1, x[0] * x[1] * x[2] * x[3]));
    let a1 = ver_push(
        ver_push(ver_push(acc, e_row, p1, x[0]), e_col, p1, x[1]),
        e_pow,
        p1,
        x[2],
    );
    let a2 = ver_push(a1, g.val, p1, x[3]);
    verify_memory(
        g,
        e_row,
        e_col,
        e_pow,
        ShapeView::Eq(row_point),
        ShapeView::Eq(col_point),
        ShapeView::Powers(gamma),
        st7,
        a2,
    )
}

/// Checks a joint opening of claims.
pub open spec fn verify_batch(vp: VerParams, acc: VerAcc, st: State) -> State {
    let (st1, proof) = read_points(st);
    let (st2, sc) = read_list(st1);
    batch_verify_of(vp, acc.points, acc.commits, acc.values, proof, sc, st2)
}

/// Checks an opening of the matrices of a circuit: gives the state and the ten
/// values.
#[verifier::opaque]
pub open spec fn sparse_verify_of(
    vp: VerParams,
    g: GroupCommits,
    lens: Seq<int>,
    b: GroupCommits,
    abc: Seq<int>,
    de: Seq<int>,
    suf: Seq<int>,
    pre: Seq<int>,
    gamma: int,
    st: State,
) -> (State, Seq<int>) {
    let (st1, v) = read_fs(st, NUM_CLAIMS as int);
    let st2 = require(
        st1,
        cong(v[5], 0) && cong(v[7], 0) && cong(v[8], 0) && cong(v[9], 0),
    );
    let none = VerAcc { commits: Seq::empty(), points: Seq::empty(), values: Seq::empty() };
    let (st3, a1) = verify_suffix(g, lens, abc, de, suf, gamma, v.take(5), st2, none);
    let (st4, a2) = verify_prefix(b, abc, pre, gamma, v[6], st3, a1);
    (verify_batch(vp, a2, st4), v)
}

fn verify_memory_right(
    chan: &mut Channel,
    alpha: Fr,
    beta: Fr,
    claim: Fr,
    log_n: usize,
    shape: &Shape,
    inv: MkzgCommit,
    count: MkzgCommit,
    acc: &mut VerifierAcc,
)
    requires
        old(acc).even(),
    ensures
        (final(chan)@, final(acc)@) == verify_right(
            old(chan)@,
            alpha@,
            beta@,
            claim@,
            log_n as nat,
            shape@,
            inv@,
            count@,
            old(acc)@,
        ),
        final(chan).same_oracle(old(chan)),
        final(acc).even(),
{
    reveal(verify_right);
    let len: usize = chan.read_len(0);
    let nv: usize = log2_ceil_exec(len);
    proof {
        lemma_log2_ceil(len as int);
        lemma_log2_fits(len as int);
    }
    chan.require(nv == log_n);
    let req = chan.challenges(nv);
    let r = chan.challenge();
    let (p, y) = verifier_sumcheck(claim * r, nv, 3, chan);
    let v = chan.read_fs(3);
    let eq = MlPoly::eval_eq_pref(&req, &p, len);
    let one = Fr::one();
    chan.require(y == (v[0] * v[1] - one) * eq + r * v[1] * v[2]);
    chan.require(v[0] == alpha + identity_mle(&p) + beta * shape.eval(&p));
    acc.push(inv, copied(&p), v[1]);
    acc.push(count, p, v[2]);
}

#[verifier::rlimit(40)]
fn memory_verify(
    g: &EntryCommits,
    e_row: MkzgCommit,
    e_col: MkzgCommit,
    e_pow: MkzgCommit,
    tr: &Shape,
    tc: &Shape,
    tg: &Shape,
    chan: &mut Channel,
    acc: &mut VerifierAcc,
)
    requires
        old(acc).even(),
    ensures
        (final(chan)@, final(acc)@) == verify_memory(
            g@,
            e_row@,
            e_col@,
            e_pow@,
            tr@,
            tc@,
            tg@,
            old(chan)@,
            old(acc)@,
        ),
        final(chan).same_oracle(old(chan)),
        final(acc).even(),
{
    reveal(verify_memory);
    let c = chan.challenges(5);
    let br = c[0];
    let bc = c[1];
    let bp = c[2];
    let alpha = c[3];
    let rho = c[4];
    let ir = chan.read_commit();
    let ic = chan.read_commit();
    let ig = chan.read_commit();
    let s = chan.read_fs(3);
    let len: usize = chan.read_len(0);
    let nv: usize = log2_ceil_exec(len);
    proof {
        lemma_log2_ceil(len as int);
        lemma_log2_fits(len as int);
    }
    let req = chan.challenges(nv);
    let r = chan.challenge();
    let rho2 = rho * rho;
    let (p, y) = verifier_sumcheck(r * (s[0] + rho * s[1] + rho2 * s[2]), nv, 3, chan);
    let v = chan.read_fs(6);
    let eq = MlPoly::eval_eq_pref(&req, &p, len);
    let one = Fr::one();
    chan.require(
        y == ((v[0] * v[1] - one) + rho * (v[2] * v[3] - one) + rho2 * (v[4] * v[5] - one)) * eq
            + r * (v[1] + rho * v[3] + rho2 * v[5]),
    );
    let w = chan.read_fs(6);
    let ones = MlPoly::eval_ones_pref(p.as_slice(), len);
    chan.require(v[0] == alpha * ones + w[0] + br * w[3]);
    chan.require(v[2] == alpha * ones + w[1] + bc * w[4]);
    chan.require(v[4] == alpha * ones + w[2] + bp * w[5]);
    acc.push(g.row.copy(), copied(&p), w[0]);
    acc.push(g.col.copy(), copied(&p), w[1]);
    acc.push(g.pow.copy(), copied(&p), w[2]);
    acc.push(e_row, copied(&p), w[3]);
    acc.push(e_col, copied(&p), w[4]);
    acc.push(e_pow, copied(&p), w[5]);
    acc.push(ir, copied(&p), v[1]);
    acc.push(ic, copied(&p), v[3]);
    acc.push(ig, p, v[5]);
    let vr = chan.read_commit();
    let vc = chan.read_commit();
    let vg = chan.read_commit();
    verify_memory_right(chan, alpha, br, s[0], g.log_row, tr, vr, g.count_row.copy(), acc);
    verify_memory_right(chan, alpha, bc, s[1], g.log_col, tc, vc, g.count_col.copy(), acc);
    verify_memory_right(chan, alpha, bp, s[2], g.log_pow, tg, vg, g.count_pow.copy(), acc);
}

fn weighted_exec(claims: &Vec<Fr>, r: Fr) -> (out: Fr)
    ensures
        out@ == weighted(values(claims@), r@),
{
    let mut acc = Fr::zero();
    let mut rp = Fr::one();
    let ghost cv = values(claims@);
    proof {
        lemma_pow0(r@);
    }
    for i in 0..claims.len()
        invariant
            cv == values(claims@),
            rp@ == pow(r@, i as nat),
            acc@ == sum_to(i as int, |i: int| pow(r@, i as nat) * cv[i]),
    {
        acc = acc + rp * claims[i];
        proof {
            reveal(pow);
            assert(pow(r@, (i + 1) as nat) == r@ * pow(r@, i as nat));
            assert(rp@ * r@ == r@ * rp@) by (nonlinear_arith);
        }
        rp = rp * r;
    }
    acc
}

#[verifier::rlimit(40)]
fn lasso_verify_supergroup(
    g: &EntryCommits,
    lens: &Vec<usize>,
    abc: &Vec<Fr>,
    de: &Vec<Fr>,
    col_point: &Vec<Fr>,
    gamma: Fr,
    claims: &Vec<Fr>,
    chan: &mut Channel,
    acc: &mut VerifierAcc,
)
    requires
        old(acc).even(),
    ensures
        (final(chan)@, final(acc)@) == verify_suffix(
            g@,
            indices(lens@),
            values(abc@),
            values(de@),
            values(col_point@),
            gamma@,
            values(claims@),
            old(chan)@,
            old(acc)@,
        ),
        final(chan).same_oracle(old(chan)),
        final(acc).even(),
{
    reveal(verify_suffix);
    assert(values(col_point@).len() == col_point.len());
    assert(values(claims@).len() == claims.len());
    assert(indices(lens@).len() == lens.len());
    chan.require(col_point.len() == g.log_col && claims.len() == lens.len());
    let e_row = chan.read_commit();
    let e_col = chan.read_commit();
    let e_pow = chan.read_commit();
    let r = chan.challenge();
    let v = chan.read_commit();
    let len: usize = chan.read_len(0);
    let nv: usize = log2_ceil_exec(len);
    proof {
        lemma_log2_ceil(len as int);
        lemma_log2_fits(len as int);
    }
    let (p1, y1) = verifier_sumcheck(weighted_exec(claims, r), nv, 4, chan);
    let x = chan.read_fs(4);
    chan.require(y1 == x[0] * x[1] * x[2] * x[3]);
    let len2: usize = chan.read_len(0);
    chan.require(log2_ceil_exec(len2) == nv);
    let (p2, y2) = verifier_sumcheck(x[3], nv, 3, chan);
    let t = chan.read_fs(3);
    chan.require(t[0] == MlPoly::eval_eq_pref(&p1, &p2, len2));
    chan.require(t[1] == weight_mle(&p2, lens, r));
    chan.require(y2 == t[0] * t[1] * t[2]);
    acc.push(e_row.copy(), copied(&p1), x[0]);
    acc.push(e_col.copy(), copied(&p1), x[1]);
    acc.push(e_pow.copy(), copied(&p1), x[2]);
    acc.push(v, p1, x[3]);
    acc.push(g.val.copy(), p2, t[2]);
    let tr = Shape::Rows(copied(abc), copied(de));
    let tc = Shape::Eq(copied(col_point));
    let tg = Shape::Powers(gamma);
    memory_verify(g, e_row, e_col, e_pow, &tr, &tc, &tg, chan, acc);
}

fn verify_b_pre(
    g: &EntryCommits,
    row_point: &Vec<Fr>,
    col_point: &Vec<Fr>,
    gamma: Fr,
    claim: Fr,
    chan: &mut Channel,
    acc: &mut VerifierAcc,
)
    requires
        old(acc).even(),
    ensures
        (final(chan)@, final(acc)@) == verify_prefix(
            g@,
            values(row_point@),
            values(col_point@),
            gamma@,
            claim@,
            old(chan)@,
            old(acc)@,
        ),
        final(chan).same_oracle(old(chan)),
        final(acc).even(),
{
    reveal(verify_prefix);
    assert(values(row_point@).len() == row_point.len());
    assert(values(col_point@).len() == col_point.len());
    chan.require(row_point.len() == g.log_row && col_point.len() == g.log_col);
    let e_row = chan.read_commit();
    let e_col = chan.read_commit();
    let e_pow = chan.read_commit();
    let len: usize = chan.read_len(0);
    let nv: usize = log2_ceil_exec(len);
    let (p1, y1) = verifier_sumcheck(claim, nv, 4, chan);
    let x = chan.read_fs(4);
    chan.require(y1 == x[0] * x[1] * x[2] * x[3]);
    acc.push(e_row.copy(), copied(&p1), x[0]);
    acc.push(e_col.copy(), copied(&p1), x[1]);
    acc.push(e_pow.copy(), copied(&p1), x[2]);
    acc.push(g.val.copy(), p1, x[3]);
    let tr = Shape::Eq(copied(row_point));
    let tc = Shape::Eq(copied(col_point));
    let tg = Shape::Powers(gamma);
    memory_verify(g, e_row, e_col, e_pow, &tr, &tc, &tg, chan, acc);
}

/// Checks a joint opening of claims.
pub fn batch_check(vp: &MkzgVerParams, acc: &VerifierAcc, chan: &mut Channel)
    requires
        acc.even(),
    ensures
        final(chan)@ == verify_batch(vp@, acc@, old(chan)@),
        final(chan).same_oracle(old(chan)),
{
    let proof = MkzgProof(chan.read_points());
    let sc = SumcheckProof(chan.read_list());
    Mkzg::batch_verify_with(vp, &acc.points, &acc.commits, &acc.values, &proof, &sc, chan);
}

/// Checks an opening of the matrices of a circuit, with what a channel holds.
pub fn sparse_verify_with(
    vp: &MkzgVerParams,
    commits: &SparseCommits,
    point_abc: &Vec<Fr>,
    point_de: &Vec<Fr>,
    point_suf: &Vec<Fr>,
    point_pre: &Vec<Fr>,
    gamma: Fr,
    chan: &mut Channel,
) -> (out: SparseEvals)
    requires
        commits.supergroups.len() > 0,
    ensures
        (final(chan)@, out@) == sparse_verify_of(
            vp@,
            commits.supergroups[0]@,
            indices(commits.supergroups[0].matrix_lens@),
            commits.b_pre@,
            values(point_abc@),
            values(point_de@),
            values(point_suf@),
            values(point_pre@),
            gamma@,
            old(chan)@,
        ),
        final(chan).same_oracle(old(chan)),
{
    reveal(sparse_verify_of);
    let arr = chan.read_fs(NUM_CLAIMS);
    let zero = Fr::zero();
    chan.require(arr[5] == zero && arr[7] == zero && arr[8] == zero && arr[9] == zero);
    let claims = crate::sparse_prover::taken(&arr, 5);
    let mut acc = VerifierAcc::new();
    let sup = &commits.supergroups[0];
    lasso_verify_supergroup(
        &sup.entries(),
        &sup.matrix_lens,
        point_abc,
        point_de,
        point_suf,
        gamma,
        &claims,
        chan,
        &mut acc,
    );
    verify_b_pre(&commits.b_pre.entries(), point_abc, point_pre, gamma, arr[6], chan, &mut acc);
    batch_check(vp, &acc, chan);
    SparseEvals::from_array(&arr)
}

/// Checks an opening of the matrices of a circuit: the values, if it is right.
pub fn sparse_verify(
    vp: &MkzgVerParams,
    commits: &SparseCommits,
    point_abc: &Vec<Fr>,
    point_de: &Vec<Fr>,
    point_suf: &Vec<Fr>,
    point_pre: &Vec<Fr>,
    gamma: Fr,
    proof: &mut Proof,
    ro: &mut RandomOracle,
) -> (out: Option<SparseEvals>)
    requires
        commits.supergroups.len() > 0,
    ensures
        ({
            let (st, v) = sparse_verify_of(
                vp@,
                commits.supergroups[0]@,
                indices(commits.supergroups[0].matrix_lens@),
                commits.b_pre@,
                values(point_abc@),
                values(point_de@),
                values(point_suf@),
                values(point_pre@),
                gamma@,
                State {
                    u: old(proof)@.u,
                    f: old(proof)@.f,
                    g: old(proof)@.g,
                    ch: old(ro)@,
                    ok: true,
                },
            );
            &&& out is Some <==> st.ok
            &&& out is Some ==> out->0@ == v
            &&& final(proof)@.u == st.u
            &&& final(proof)@.f == st.f
            &&& final(proof)@.g == st.g
            &&& final(ro)@ == st.ch
        }),
        final(ro).all() == old(ro).all(),
        final(ro).all_ints() == old(ro).all_ints(),
        final(ro).ints() == old(ro).ints(),
{
    let mut inner = RandomOracle::new(Vec::new(), Vec::new());
    core::mem::swap(&mut inner, ro);
    let mut tape = Proof::new();
    core::mem::swap(&mut tape, proof);
    let mut chan = Channel { proof: tape, ro: inner, ok: true };
    let evals = sparse_verify_with(
        vp,
        commits,
        point_abc,
        point_de,
        point_suf,
        point_pre,
        gamma,
        &mut chan,
    );
    core::mem::swap(&mut chan.ro, ro);
    core::mem::swap(&mut chan.proof, proof);
    if chan.ok {
        Some(evals)
    } else {
        None
    }
}

} // verus!
