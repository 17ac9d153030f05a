//! The prover's side of the openings of sparse matrices.
use vstd::prelude::*;
use vstd::arithmetic::power::*;
use vstd::arithmetic::power2::*;
use crate::circuit::{Circuit, CircuitView};
use crate::field::{Fr, copied, inverse_of, invertible, tables, values};
use crate::gates::{logup_combined_gate, logup_right_gate, product3_gate, product4, product4_gate};
use crate::kzg::{Mkzg, MkzgProveParams, batch_openable, poly_tables};
use crate::poly::{MlPoly, at, eq_at, mle};
use crate::sparse::{
    Acc, EntryGroup, GroupView, SparseEvals, SparsePolys, acc_push, affine, all_invertible, below,
    circuit_fits, entry_weights, eq_table, fingerprints, gamma_table, group_ok, indices,
    lemma_prefix_group, lemma_suffix_group, lemma_table_size, memory_draws, memory_ready, pad,
    pointwise, prefix_group, prove_left, prove_memory, prove_prefix, prove_right, prove_suffix,
    reads, row_table, send_batch, shifted, shifted_inverses, slice_weights, sparse_open_of,
    sparse_values, suffix_group, suffix_lens, total,
};
use crate::speaker::{
    Sent, commit_send, drawn, rounds_send, same_source, send_commit, send_fs, send_rounds, send_u,
    sent,
};
use crate::sumcheck::{lemma_log2_ceil, lemma_log2_unique, log2_ceil, log2_ceil_exec, values_at};
use crate::sums::{lemma_pow2_step, sum_to, two_pow};
use crate::util::{Proof, RandomOracle, batch_inverse};

verus! {

/// Polynomials and the points at which they will be opened.
pub struct ProverAcc {
    pub polys: Vec<MlPoly>,
    pub points: Vec<Vec<Fr>>,
}

impl View for ProverAcc {
    type V = Acc;

    open spec fn view(&self) -> Acc {
        Acc { polys: poly_tables(self.polys@), points: tables(self.points@) }
    }
}

impl ProverAcc {
    /// No polynomial.
    pub fn new() -> (out: ProverAcc)
        ensures
            out@ == (Acc { polys: Seq::empty(), points: Seq::empty() }),
            out.polys.len() == 0,
            out.points.len() == 0,
    {
        let out = ProverAcc { polys: Vec::new(), points: Vec::new() };
        assert(out@.polys =~= Seq::empty());
        assert(out@.points =~= Seq::empty());
        out
    }

    /// One more polynomial and point.
    pub fn push(&mut self, poly: MlPoly, point: Vec<Fr>)
        ensures
            final(self)@ == acc_push(old(self)@, poly@, values(point@)),
    {
        let ghost before = self@;
        self.polys.push(poly);
        self.points.push(point);
        assert(self@.polys =~= before.polys.push(poly@));
        assert(self@.points =~= before.points.push(values(point@)));
    }
}

/// The values of `eq_at` over the cube.
pub fn eq_table_exec(p: &Vec<Fr>) -> (out: Vec<Fr>)
    requires
        pow2(p.len() as nat) <= usize::MAX,
    ensures
        values(out@) == eq_table(values(p@)),
        out.len() == pow2(p.len() as nat),
{
    let eq = MlPoly::new_eq(p);
    assert(values(eq.0@) =~= eq_table(values(p@)));
    eq.0
}

/// A point with zeros up to the given length.
pub fn pad_exec(p: &Vec<Fr>, n: usize) -> (out: Vec<Fr>)
    ensures
        values(out@) == pad(values(p@), n as int),
        out.len() == n,
{
    let mut out: Vec<Fr> = Vec::new();
    for i in 0..n
        invariant
            out.len() == i,
            forall|j: int| 0 <= j < i ==> (#[trigger] out[j])@ == at(values(p@), j),
    {
        out.push(crate::sumcheck::entry(p, i));
    }
    assert(values(out@) =~= pad(values(p@), n as int));
    out
}

fn row_table_exec(abc: &Vec<Fr>, de: &Vec<Fr>, log: usize) -> (out: Vec<Fr>)
    requires
        pow2((log + 1) as nat) <= usize::MAX,
    ensures
        values(out@) == row_table(values(abc@), values(de@), log as nat),
        out.len() == pow2((log + 1) as nat),
{
    proof {
        lemma_pow2_step(log as nat);
    }
    let mut out = eq_table_exec(&pad_exec(abc, log));
    let mut rest = eq_table_exec(&pad_exec(de, log));
    let ghost a = values(out@);
    let ghost b = values(rest@);
    let ghost o = out@;
    let ghost r = rest@;
    out.append(&mut rest);
    assert(out@ =~= o + r);
    assert(values(out@) =~= a + b);
    out
}

fn gamma_table_exec(gamma: Fr, log: usize) -> (out: Vec<Fr>)
    requires
        pow2(log as nat) <= usize::MAX,
    ensures
        values(out@) == gamma_table(gamma@, log as nat),
        out.len() == pow2(log as nat),
{
    let n: usize = two_pow(log);
    let mut out: Vec<Fr> = Vec::new();
    let mut cur = Fr::one();
    proof {
        lemma_pow0(gamma@);
    }
    for i in 0..n
        invariant
            out.len() == i,
            cur@ == pow(gamma@, i as nat),
            forall|j: int| 0 <= j < i ==> (#[trigger] out[j])@ == pow(gamma@, j as nat),
    {
        out.push(cur);
        proof {
            reveal(pow);
            assert(pow(gamma@, (i + 1) as nat) == gamma@ * pow(gamma@, i as nat));
            assert(cur@ * gamma@ == gamma@ * cur@) by (nonlinear_arith);
        }
        cur = cur * gamma;
    }
    assert(values(out@) =~= gamma_table(gamma@, log as nat));
    out
}

fn reads_exec(idx: &Vec<usize>, table: &Vec<Fr>) -> (out: Vec<Fr>)
    requires
        below(indices(idx@), table.len() as int),
    ensures
        values(out@) == reads(indices(idx@), values(table@)),
        out.len() == idx.len(),
{
    let mut out: Vec<Fr> = Vec::new();
    let ghost iv = indices(idx@);
    for k in 0..idx.len()
        invariant
            iv == indices(idx@),
            below(iv, table.len() as int),
            out.len() == k,
            forall|j: int| 0 <= j < k ==> (#[trigger] out[j])@ == values(table@)[iv[j]],
    {
        assert(0 <= iv[k as int] < table.len());
        out.push(table[idx[k]]);
    }
    assert(values(out@) =~= reads(iv, values(table@)));
    out
}

fn affine_exec(a: &Vec<Fr>, b: &Vec<Fr>, beta: Fr) -> (out: Vec<Fr>)
    requires
        a.len() == b.len(),
    ensures
        values(out@) == affine(values(a@), values(b@), beta@),
        out.len() == a.len(),
{
    let mut out: Vec<Fr> = Vec::new();
    for i in 0..a.len()
        invariant
            a.len() == b.len(),
            out.len() == i,
            forall|j: int| 0 <= j < i ==> (#[trigger] out[j])@ == a[j]@ + beta@ * b[j]@,
    {
        out.push(a[i] + beta * b[i]);
    }
    assert(values(out@) =~= affine(values(a@), values(b@), beta@));
    out
}

/// A vector with a constant added.
pub fn shifted_exec(a: &Vec<Fr>, alpha: Fr) -> (out: Vec<Fr>)
    ensures
        values(out@) == shifted(values(a@), alpha@),
        out.len() == a.len(),
{
    let mut out: Vec<Fr> = Vec::new();
    for i in 0..a.len()
        invariant
            out.len() == i,
            forall|j: int| 0 <= j < i ==> (#[trigger] out[j])@ == a[j]@ + alpha@,
    {
        out.push(a[i] + alpha);
    }
    assert(values(out@) =~= shifted(values(a@), alpha@));
    out
}

/// The inverses of a vector with a constant added.
pub fn shifted_inverses_exec(a: &Vec<Fr>, alpha: Fr) -> (out: Vec<Fr>)
    requires
        a.len() > 0,
        all_invertible(values(a@), alpha@),
    ensures
        values(out@) == shifted_inverses(values(a@), alpha@),
        out.len() == a.len(),
{
    let mut out = shifted_exec(a, alpha);
    let ghost sv = values(out@);
    proof {
        assert forall|i: int| 0 <= i < out.len() implies invertible((#[trigger] out[i])@) by {
            assert(values(out@)[i] == shifted(values(a@), alpha@)[i]);
            assert(invertible(values(a@)[i] + alpha@));
        }
    }
    let ghost before = out@;
    batch_inverse(&mut out);
    proof {
        assert forall|i: int| 0 <= i < out.len() implies (#[trigger] out[i])@ == inverse_of(
            values(a@)[i] + alpha@,
        ) by {
            assert(before[i]@ == sv[i]);
        }
        assert(values(out@) =~= shifted_inverses(values(a@), alpha@));
    }
    out
}

/// The sum of a vector.
pub fn total_exec(a: &Vec<Fr>) -> (out: Fr)
    ensures
        out@ == total(values(a@)),
{
    let mut out = Fr::zero();
    let ghost av = values(a@);
    for i in 0..a.len()
        invariant
            av == values(a@),
            out@ == sum_to(i as int, |i: int| av[i]),
    {
        out = out + a[i];
    }
    out
}

fn fingerprints_exec(table: &Vec<Fr>, beta: Fr) -> (out: Vec<Fr>)
    ensures
        values(out@) == fingerprints(values(table@), beta@),
        out.len() == table.len(),
{
    let mut out: Vec<Fr> = Vec::new();
    for i in 0..table.len()
        invariant
            out.len() == i,
            forall|j: int| 0 <= j < i ==> (#[trigger] out[j])@ == j + beta@ * table[j]@,
    {
        out.push(Fr::from_usize(i) + beta * table[i]);
    }
    assert(values(out@) =~= fingerprints(values(table@), beta@));
    out
}

fn pointwise_exec(a: &Vec<Fr>, b: &Vec<Fr>) -> (out: Vec<Fr>)
    requires
        a.len() == b.len(),
    ensures
        values(out@) == pointwise(values(a@), values(b@)),
        out.len() == a.len(),
{
    let mut out: Vec<Fr> = Vec::new();
    for i in 0..a.len()
        invariant
            a.len() == b.len(),
            out.len() == i,
            forall|j: int| 0 <= j < i ==> (#[trigger] out[j])@ == a[j]@ * b[j]@,
    {
        out.push(a[i] * b[i]);
    }
    assert(values(out@) =~= pointwise(values(a@), values(b@)));
    out
}

fn entry_weights_exec(lens: &Vec<usize>, r: Fr, len: usize) -> (out: Vec<Fr>)
    ensures
        values(out@) == entry_weights(indices(lens@), r@, len as int),
        out.len() == len,
{
    let ghost lv = indices(lens@);
    let mut w: Vec<Fr> = Vec::new();
    let mut rp = Fr::one();
    proof {
        lemma_pow0(r@);
        assert(values(w@) =~= slice_weights(lv, r@, 0));
    }
    for i in 0..lens.len()
        invariant
            lv == indices(lens@),
            rp@ == pow(r@, i as nat),
            values(w@) == slice_weights(lv, r@, i as int),
    {
        let n: usize = lens[i];
        let ghost before = values(w@);
        for j in 0..n
            invariant
                rp@ == pow(r@, i as nat),
                values(w@) == before + Seq::new(j as nat, |l: int| pow(r@, i as nat)),
        {
            let ghost cur = values(w@);
            w.push(rp);
            assert(values(w@) =~= cur.push(rp@));
            assert(values(w@) =~= before + Seq::new((j + 1) as nat, |l: int| pow(r@, i as nat)));
        }
        proof {
            assert(lv[i as int] == n);
            assert(values(w@) =~= slice_weights(lv, r@, i + 1));
            reveal(pow);
            assert(pow(r@, (i + 1) as nat) == r@ * pow(r@, i as nat));
            assert(rp@ * r@ == r@ * rp@) by (nonlinear_arith);
        }
        rp = rp * r;
    }
    pad_exec(&w, len)
}

/// `eq_at` over the first vertices.
pub fn eq_prefix_table(p: &Vec<Fr>, len: usize) -> (out: Vec<Fr>)
    requires
        pow2(p.len() as nat) <= usize::MAX,
        len <= pow2(p.len() as nat),
    ensures
        values(out@) == eq_table(values(p@)).take(len as int),
        out.len() == len,
{
    let mut eq = eq_table_exec(p);
    let ghost before = values(eq@);
    eq.truncate(len);
    assert(values(eq@) =~= before.take(len as int));
    eq
}

/// The first entries of a vector.
pub fn taken(v: &Vec<Fr>, n: usize) -> (out: Vec<Fr>)
    requires
        n <= v.len(),
    ensures
        values(out@) == values(v@).take(n as int),
        out.len() == n,
{
    let mut out: Vec<Fr> = Vec::new();
    for i in 0..n
        invariant
            n <= v.len(),
            out.len() == i,
            forall|j: int| 0 <= j < i ==> out[j] == v[j],
    {
        out.push(v[i]);
    }
    assert(values(out@) =~= values(v@).take(n as int));
    out
}

/// Runs the right-hand side of one table.
pub fn right_exec(
    tab: &Vec<Fr>,
    inv: &Vec<Fr>,
    count: &Vec<Fr>,
    alpha: Fr,
    proof: &mut Proof,
    ro: &mut RandomOracle,
) -> (point: Vec<Fr>)
    requires
        0 < tab.len() < usize::MAX,
        inv.len() == tab.len(),
        count.len() == tab.len(),
        pow2(log2_ceil(tab.len() as int)) <= usize::MAX,
        old(ro)@.len() >= 2 * log2_ceil(tab.len() as int) + 1,
    ensures
        (sent(final(proof)@, final(ro)@), values(point@)) == prove_right(
            values(tab@),
            values(inv@),
            values(count@),
            alpha@,
            sent(old(proof)@, old(ro)@),
        ),
        point.len() == log2_ceil(tab.len() as int),
        final(ro)@ == old(ro)@.skip(2 * log2_ceil(tab.len() as int) as int + 1),
        same_source(*final(ro), *old(ro)),
{
    reveal(prove_right);
    let len: usize = tab.len();
    let nv: usize = log2_ceil_exec(len);
    proof {
        lemma_log2_ceil(len as int);
    }
    let ghost s = sent(proof@, ro@);
    proof.push_u(len);
    let ghost s1 = send_u(s, len as int);
    let rs = ro.next_n_fields(nv);
    let ghost s2 = drawn(s1, nv as int);
    assert(values(rs@).len() == rs.len());
    let eq = eq_prefix_table(&rs, len);
    let r = ro.next_field();
    let ghost s3 = drawn(s2, 1);
    assert(ro@ =~= s3.ch);
    let mut coins: Vec<Fr> = Vec::new();
    coins.push(r);
    let mut tabs: Vec<Vec<Fr>> = Vec::new();
    tabs.push(shifted_exec(tab, alpha));
    tabs.push(copied(inv));
    tabs.push(copied(count));
    tabs.push(eq);
    let ghost tv = seq![
        shifted(values(tab@), alpha@),
        values(inv@),
        values(count@),
        eq_table(s1.ch.take(nv as int)).take(len as int),
    ];
    assert(tables(tabs@) =~= tv);
    assert(values(coins@) =~= seq![r@]);
    assert(tabs[0].len() == len);
    let done = rounds_send(&logup_right_gate(), &coins, tabs, 3, nv, proof, ro);
    proof.push_f(taken(&done.1, 3).as_slice());
    assert(ro@ =~= old(ro)@.skip(2 * nv + 1));
    done.0
}

fn left_exec(
    er: &Vec<Fr>,
    ir: &Vec<Fr>,
    ec: &Vec<Fr>,
    ic: &Vec<Fr>,
    eg: &Vec<Fr>,
    ig: &Vec<Fr>,
    alpha: Fr,
    rho: Fr,
    proof: &mut Proof,
    ro: &mut RandomOracle,
) -> (point: Vec<Fr>)
    requires
        0 < er.len() < usize::MAX,
        ir.len() == er.len(),
        ec.len() == er.len(),
        ic.len() == er.len(),
        eg.len() == er.len(),
        ig.len() == er.len(),
        pow2(log2_ceil(er.len() as int)) <= usize::MAX,
        old(ro)@.len() >= 2 * log2_ceil(er.len() as int) + 1,
    ensures
        (sent(final(proof)@, final(ro)@), values(point@)) == prove_left(
            values(er@),
            values(ir@),
            values(ec@),
            values(ic@),
            values(eg@),
            values(ig@),
            alpha@,
            rho@,
            sent(old(proof)@, old(ro)@),
        ),
        point.len() == log2_ceil(er.len() as int),
        final(ro)@ == old(ro)@.skip(2 * log2_ceil(er.len() as int) as int + 1),
        same_source(*final(ro), *old(ro)),
{
    reveal(prove_left);
    let len: usize = er.len();
    let nv: usize = log2_ceil_exec(len);
    proof {
        lemma_log2_ceil(len as int);
    }
    let ghost s = sent(proof@, ro@);
    proof.push_u(len);
    let ghost s1 = send_u(s, len as int);
    let rs = ro.next_n_fields(nv);
    let ghost s2 = drawn(s1, nv as int);
    assert(values(rs@).len() == rs.len());
    let eq = eq_prefix_table(&rs, len);
    let r = ro.next_field();
    let ghost s3 = drawn(s2, 1);
    assert(ro@ =~= s3.ch);
    let mut coins: Vec<Fr> = Vec::new();
    coins.push(rho);
    coins.push(rho * rho);
    coins.push(r);
    let mut tabs: Vec<Vec<Fr>> = Vec::new();
    tabs.push(shifted_exec(er, alpha));
    tabs.push(copied(ir));
    tabs.push(shifted_exec(ec, alpha));
    tabs.push(copied(ic));
    tabs.push(shifted_exec(eg, alpha));
    tabs.push(copied(ig));
    tabs.push(eq);
    let ghost tv = seq![
        shifted(values(er@), alpha@),
        values(ir@),
        shifted(values(ec@), alpha@),
        values(ic@),
        shifted(values(eg@), alpha@),
        values(ig@),
        eq_table(s1.ch.take(nv as int)).take(len as int),
    ];
    assert(tables(tabs@) =~= tv);
    assert(values(coins@) =~= seq![rho@, rho@ * rho@, r@]);
    assert(tabs[0].len() == len);
    let done = rounds_send(&logup_combined_gate(), &coins, tabs, 3, nv, proof, ro);
    proof.push_f(taken(&done.1, 6).as_slice());
    assert(ro@ =~= old(ro)@.skip(2 * nv + 1));
    done.0
}

/// The value of a polynomial at a point with enough coordinates.
fn eval_exec(v: &Vec<Fr>, point: &Vec<Fr>) -> (out: Fr)
    requires
        0 < v.len() <= pow2(point.len() as nat),
    ensures
        out@ == mle(values(v@), values(point@)),
{
    MlPoly(copied(v)).eval(point.as_slice())
}

#[verifier::rlimit(40)]
fn memory_exec(
    srs: &MkzgProveParams,
    g: &EntryGroup,
    tr: &Vec<Fr>,
    tc: &Vec<Fr>,
    tg: &Vec<Fr>,
    proof: &mut Proof,
    ro: &mut RandomOracle,
    acc: &mut ProverAcc,
)
    requires
        group_ok(g@),
        g.indexed(),
        tr.len() == pow2(g@.log_row),
        tc.len() == pow2(g@.log_col),
        tg.len() == pow2(g@.log_pow),
        srs@.len() > 0,
        srs@.len() + g@.row.len() <= usize::MAX,
        srs@.len() + tr.len() <= usize::MAX,
        srs@.len() + tc.len() <= usize::MAX,
        srs@.len() + tg.len() <= usize::MAX,
        memory_ready(g@, values(tr@), values(tc@), values(tg@), old(ro)@),
    ensures
        (sent(final(proof)@, final(ro)@), final(acc)@) == prove_memory(
            srs@,
            g@,
            values(tr@),
            values(tc@),
            values(tg@),
            sent(old(proof)@, old(ro)@),
            old(acc)@,
        ),
        final(ro)@ == old(ro)@.skip(memory_draws(g@)),
        same_source(*final(ro), *old(ro)),
{
    reveal(prove_memory);
    let ghost gv = g@;
    let ghost trv = values(tr@);
    let ghost tcv = values(tc@);
    let ghost tgv = values(tg@);
    let ghost ch = ro@;
    let ghost start = ro@;
    proof {
        assert(gv.row.len() == g.row.0.len());
        assert(gv.col.len() == g.col.0.len());
        assert(gv.pow.len() == g.pow.0.len());
        assert(gv.row.len() == g.row_idx.len());
        assert(gv.col.len() == g.col_idx.len());
        assert(gv.pow.len() == g.pow_idx.len());
        assert(gv.count_row.len() == g.count_row.0.len());
        assert(gv.count_col.len() == g.count_col.0.len());
        assert(gv.count_pow.len() == g.count_pow.0.len());
        lemma_log2_ceil(gv.row.len() as int);
        lemma_log_of_table(gv.log_row);
        lemma_log_of_table(gv.log_col);
        lemma_log_of_table(gv.log_pow);
    }
    let e_row = reads_exec(g.row_idx, tr);
    let e_col = reads_exec(g.col_idx, tc);
    let e_pow = reads_exec(g.pow_idx, tg);
    let ghost s = sent(proof@, ro@);
    let br = ro.next_field();
    let bc = ro.next_field();
    let bp = ro.next_field();
    let alpha = ro.next_field();
    let rho = ro.next_field();
    assert(ro@ =~= start.skip(5));
    let er = affine_exec(&g.row.0, &e_row, br);
    let ec = affine_exec(&g.col.0, &e_col, bc);
    let eg = affine_exec(&g.pow.0, &e_pow, bp);
    let ir = MlPoly(shifted_inverses_exec(&er, alpha));
    let ic = MlPoly(shifted_inverses_exec(&ec, alpha));
    let ig = MlPoly(shifted_inverses_exec(&eg, alpha));
    let ghost s0 = drawn(s, 5);
    assert(sent(proof@, ro@) == s0);
    commit_send(srs, &ir, proof);
    commit_send(srs, &ic, proof);
    commit_send(srs, &ig, proof);
    let ghost s3 = send_commit(send_commit(send_commit(s0, srs@, ir@), srs@, ic@), srs@, ig@);
    assert(sent(proof@, ro@) == s3);
    let mut sums: Vec<Fr> = Vec::new();
    sums.push(total_exec(&ir.0));
    sums.push(total_exec(&ic.0));
    sums.push(total_exec(&ig.0));
    assert(values(sums@) =~= seq![total(ir@), total(ic@), total(ig@)]);
    proof.push_f(sums.as_slice());
    let ghost s4 = send_fs(s3, seq![total(ir@), total(ic@), total(ig@)]);
    assert(sent(proof@, ro@) == s4);
    let pl = left_exec(&er, &ir.0, &ec, &ic.0, &eg, &ig.0, alpha, rho, proof, ro);
    let ghost nl = log2_ceil(gv.row.len() as int) as int;
    assert(ro@ =~= start.skip(6 + 2 * nl));
    let ghost s5 = sent(proof@, ro@);
    let mut evals: Vec<Fr> = Vec::new();
    evals.push(eval_exec(&g.row.0, &pl));
    evals.push(eval_exec(&g.col.0, &pl));
    evals.push(eval_exec(&g.pow.0, &pl));
    evals.push(eval_exec(&e_row, &pl));
    evals.push(eval_exec(&e_col, &pl));
    evals.push(eval_exec(&e_pow, &pl));
    let ghost plv = values(pl@);
    let ghost ev = seq![
        mle(gv.row, plv),
        mle(gv.col, plv),
        mle(gv.pow, plv),
        mle(values(e_row@), plv),
        mle(values(e_col@), plv),
        mle(values(e_pow@), plv),
    ];
    assert(values(evals@) =~= ev);
    proof.push_f(evals.as_slice());
    let ghost s6 = send_fs(s5, ev);
    assert(sent(proof@, ro@) == s6);
    acc.push(g.row.copy(), copied(&pl));
    acc.push(g.col.copy(), copied(&pl));
    acc.push(g.pow.copy(), copied(&pl));
    acc.push(MlPoly(e_row), copied(&pl));
    acc.push(MlPoly(e_col), copied(&pl));
    acc.push(MlPoly(e_pow), copied(&pl));
    acc.push(ir, copied(&pl));
    acc.push(ic, copied(&pl));
    acc.push(ig, pl);
    let ghost a3 = acc@;
    let fr = fingerprints_exec(tr, br);
    let fc = fingerprints_exec(tc, bc);
    let fg = fingerprints_exec(tg, bp);
    let vr = MlPoly(shifted_inverses_exec(&fr, alpha));
    let vc = MlPoly(shifted_inverses_exec(&fc, alpha));
    let vg = MlPoly(shifted_inverses_exec(&fg, alpha));
    commit_send(srs, &vr, proof);
    commit_send(srs, &vc, proof);
    commit_send(srs, &vg, proof);
    let ghost s9 = send_commit(send_commit(send_commit(s6, srs@, vr@), srs@, vc@), srs@, vg@);
    assert(sent(proof@, ro@) == s9);
    let pr = right_exec(&fr, &vr.0, &g.count_row.0, alpha, proof, ro);
    assert(ro@ =~= start.skip(7 + 2 * nl + 2 * gv.log_row));
    let pc = right_exec(&fc, &vc.0, &g.count_col.0, alpha, proof, ro);
    assert(ro@ =~= start.skip(8 + 2 * nl + 2 * gv.log_row + 2 * gv.log_col));
    let pg = right_exec(&fg, &vg.0, &g.count_pow.0, alpha, proof, ro);
    assert(ro@ =~= start.skip(memory_draws(gv)));
    acc.push(vr, copied(&pr));
    acc.push(g.count_row.copy(), pr);
    acc.push(vc, copied(&pc));
    acc.push(g.count_col.copy(), pc);
    acc.push(vg, copied(&pg));
    acc.push(g.count_pow.copy(), pg);
}

/// A table of a power of two of values needs that many variables.
pub proof fn lemma_log_of_table(log: nat)
    requires
        log >= 1,
    ensures
        log2_ceil(pow2(log) as int) == log,
        pow2(log) > 0,
{
    lemma_pow2_step(0);
    lemma_pow2_step(log);
    lemma_pow2_step((log - 1) as nat);
    lemma_log2_unique(pow2(log) as int, log);
}

/// The number of challenges that proving the suffix values draws.
pub open spec fn suffix_draws(g: GroupView) -> int {
    1 + 2 * log2_ceil(g.row.len() as int) as int + memory_draws(g)
}

/// The number of challenges that proving the prefix value draws.
pub open spec fn prefix_draws(g: GroupView) -> int {
    log2_ceil(g.row.len() as int) as int + memory_draws(g)
}

/// The inverses that proving the suffix values needs exist.
pub open spec fn suffix_ready(
    g: GroupView,
    abc: Seq<int>,
    de: Seq<int>,
    col_point: Seq<int>,
    gamma: int,
    ch: Seq<int>,
) -> bool {
    let nv = log2_ceil(g.row.len() as int) as int;
    &&& ch.len() >= suffix_draws(g)
    &&& memory_ready(
        g,
        row_table(abc, de, (g.log_row - 1) as nat),
        eq_table(col_point),
        gamma_table(gamma, g.log_pow),
        ch.skip(1 + 2 * nv),
    )
}

/// The inverses that proving the prefix value needs exist.
pub open spec fn prefix_ready(
    g: GroupView,
    row_point: Seq<int>,
    col_point: Seq<int>,
    gamma: int,
    ch: Seq<int>,
) -> bool {
    let nv = log2_ceil(g.row.len() as int) as int;
    &&& ch.len() >= prefix_draws(g)
    &&& memory_ready(
        g,
        eq_table(row_point),
        eq_table(col_point),
        gamma_table(gamma, g.log_pow),
        ch.skip(nv),
    )
}

/// The commitments that a group needs fit in memory.
pub open spec fn group_commits_fit(g: GroupView, chunk: int) -> bool {
    &&& chunk > 0
    &&& chunk + g.row.len() <= usize::MAX
    &&& chunk + pow2(g.log_row) <= usize::MAX
    &&& chunk + pow2(g.log_col) <= usize::MAX
    &&& chunk + pow2(g.log_pow) <= usize::MAX
}

fn lasso_prove_supergroup(
    srs: &MkzgProveParams,
    g: &EntryGroup,
    lens: &Vec<usize>,
    abc: &Vec<Fr>,
    de: &Vec<Fr>,
    col_point: &Vec<Fr>,
    gamma: Fr,
    proof: &mut Proof,
    ro: &mut RandomOracle,
    acc: &mut ProverAcc,
)
    requires
        group_ok(g@),
        g.indexed(),
        group_commits_fit(g@, srs@.len() as int),
        col_point.len() == g@.log_col,
        suffix_ready(g@, values(abc@), values(de@), values(col_point@), gamma@, old(ro)@),
    ensures
        (sent(final(proof)@, final(ro)@), final(acc)@) == prove_suffix(
            srs@,
            g@,
            indices(lens@),
            values(abc@),
            values(de@),
            values(col_point@),
            gamma@,
            sent(old(proof)@, old(ro)@),
            old(acc)@,
        ),
        final(ro)@ == old(ro)@.skip(suffix_draws(g@)),
        same_source(*final(ro), *old(ro)),
{
    reveal(prove_suffix);
    let ghost gv = g@;
    let ghost start = ro@;
    let ghost s = sent(proof@, ro@);
    let ghost srsv = srs@;
    let len: usize = g.row.0.len();
    proof {
        assert(gv.row.len() == len);
        assert(gv.val.len() == g.val.0.len());
        assert(gv.row.len() == g.row_idx.len());
        assert(gv.col.len() == g.col_idx.len());
        assert(gv.pow.len() == g.pow_idx.len());
        lemma_log2_ceil(len as int);
    }
    let nv: usize = log2_ceil_exec(len);
    let tr = row_table_exec(abc, de, g.log_row - 1);
    let tc = eq_table_exec(col_point);
    let tg = gamma_table_exec(gamma, g.log_pow);
    let e_row = MlPoly(reads_exec(g.row_idx, &tr));
    let e_col = MlPoly(reads_exec(g.col_idx, &tc));
    let e_pow = MlPoly(reads_exec(g.pow_idx, &tg));
    commit_send(srs, &e_row, proof);
    commit_send(srs, &e_col, proof);
    commit_send(srs, &e_pow, proof);
    let ghost s3 = send_commit(
        send_commit(send_commit(s, srsv, e_row@), srsv, e_col@),
        srsv,
        e_pow@,
    );
    assert(sent(proof@, ro@) == s3);
    let r = ro.next_field();
    assert(ro@ =~= start.skip(1));
    let w = entry_weights_exec(lens, r, len);
    let v = MlPoly(pointwise_exec(&g.val.0, &w));
    commit_send(srs, &v, proof);
    proof.push_u(len);
    let ghost s5 = send_u(send_commit(drawn(s3, 1), srsv, v@), len as int);
    assert(sent(proof@, ro@) == s5);
    let no_coins: Vec<Fr> = Vec::new();
    assert(values(no_coins@) =~= Seq::<int>::empty());
    let mut t1: Vec<Vec<Fr>> = Vec::new();
    t1.push(copied(&e_row.0));
    t1.push(copied(&e_col.0));
    t1.push(copied(&e_pow.0));
    t1.push(copied(&v.0));
    let ghost t1v = seq![e_row@, e_col@, e_pow@, v@];
    assert(tables(t1@) =~= t1v);
    assert(t1[0].len() == len);
    let main = rounds_send(&product4_gate(), &no_coins, t1, 4, nv, proof, ro);
    let p1 = main.0;
    assert(ro@ =~= start.skip(1 + nv));
    proof.push_f(main.1.as_slice());
    let ghost s6 = send_fs(
        send_rounds(s5, product4(), Seq::empty(), t1v, len as int, 4, nv as int),
        values_at(t1v, values(p1@)),
    );
    assert(sent(proof@, ro@) == s6);
    proof.push_u(len);
    let mut t2: Vec<Vec<Fr>> = Vec::new();
    t2.push(eq_prefix_table(&p1, len));
    t2.push(w);
    t2.push(copied(&g.val.0));
    let ghost t2v = seq![eq_table(values(p1@)).take(len as int), values(w@), gv.val];
    assert(tables(t2@) =~= t2v);
    assert(t2[0].len() == len);
    let second = rounds_send(&product3_gate(), &no_coins, t2, 3, nv, proof, ro);
    assert(ro@ =~= start.skip(1 + 2 * nv));
    proof.push_f(second.1.as_slice());
    acc.push(e_row, copied(&p1));
    acc.push(e_col, copied(&p1));
    acc.push(e_pow, copied(&p1));
    acc.push(v, p1);
    acc.push(g.val.copy(), second.0);
    memory_exec(srs, g, &tr, &tc, &tg, proof, ro, acc);
    assert(ro@ =~= start.skip(suffix_draws(gv)));
}

fn prove_b_pre(
    srs: &MkzgProveParams,
    g: &EntryGroup,
    row_point: &Vec<Fr>,
    col_point: &Vec<Fr>,
    gamma: Fr,
    proof: &mut Proof,
    ro: &mut RandomOracle,
    acc: &mut ProverAcc,
)
    requires
        group_ok(g@),
        g.indexed(),
        group_commits_fit(g@, srs@.len() as int),
        row_point.len() == g@.log_row,
        col_point.len() == g@.log_col,
        prefix_ready(g@, values(row_point@), values(col_point@), gamma@, old(ro)@),
    ensures
        (sent(final(proof)@, final(ro)@), final(acc)@) == prove_prefix(
            srs@,
            g@,
            values(row_point@),
            values(col_point@),
            gamma@,
            sent(old(proof)@, old(ro)@),
            old(acc)@,
        ),
        final(ro)@ == old(ro)@.skip(prefix_draws(g@)),
        same_source(*final(ro), *old(ro)),
{
    reveal(prove_prefix);
    let ghost gv = g@;
    let ghost start = ro@;
    let ghost s = sent(proof@, ro@);
    let ghost srsv = srs@;
    let len: usize = g.row.0.len();
    proof {
        assert(gv.row.len() == len);
        assert(gv.val.len() == g.val.0.len());
        assert(gv.row.len() == g.row_idx.len());
        assert(gv.col.len() == g.col_idx.len());
        assert(gv.pow.len() == g.pow_idx.len());
        lemma_log2_ceil(len as int);
    }
    let nv: usize = log2_ceil_exec(len);
    let tr = eq_table_exec(row_point);
    let tc = eq_table_exec(col_point);
    let tg = gamma_table_exec(gamma, g.log_pow);
    let e_row = MlPoly(reads_exec(g.row_idx, &tr));
    let e_col = MlPoly(reads_exec(g.col_idx, &tc));
    let e_pow = MlPoly(reads_exec(g.pow_idx, &tg));
    commit_send(srs, &e_row, proof);
    commit_send(srs, &e_col, proof);
    commit_send(srs, &e_pow, proof);
    proof.push_u(len);
    let ghost s3 = send_u(
        send_commit(send_commit(send_commit(s, srsv, e_row@), srsv, e_col@), srsv, e_pow@),
        len as int,
    );
    assert(sent(proof@, ro@) == s3);
    let no_coins: Vec<Fr> = Vec::new();
    assert(values(no_coins@) =~= Seq::<int>::empty());
    let mut t1: Vec<Vec<Fr>> = Vec::new();
    t1.push(copied(&e_row.0));
    t1.push(copied(&e_col.0));
    t1.push(copied(&e_pow.0));
    t1.push(copied(&g.val.0));
    let ghost t1v = seq![e_row@, e_col@, e_pow@, gv.val];
    assert(tables(t1@) =~= t1v);
    assert(t1[0].len() == len);
    let main = rounds_send(&product4_gate(), &no_coins, t1, 4, nv, proof, ro);
    let p1 = main.0;
    assert(ro@ =~= start.skip(nv as int));
    proof.push_f(main.1.as_slice());
    acc.push(e_row, copied(&p1));
    acc.push(e_col, copied(&p1));
    acc.push(e_pow, copied(&p1));
    acc.push(g.val.copy(), p1);
    memory_exec(srs, g, &tr, &tc, &tg, proof, ro, acc);
    assert(ro@ =~= start.skip(prefix_draws(gv)));
}

/// Opens polynomials jointly and sends the opening.
pub fn batch_send(
    srs: &MkzgProveParams,
    acc: &ProverAcc,
    proof: &mut Proof,
    ro: &mut RandomOracle,
)
    requires
        batch_openable(srs@, acc@.polys, acc@.points, old(ro)@),
    ensures
        sent(final(proof)@, final(ro)@) == send_batch(
            srs@,
            acc@,
            sent(old(proof)@, old(ro)@),
        ),
        same_source(*final(ro), *old(ro)),
{
    let opened = Mkzg::batch_open(srs, &acc.polys, &acc.points, ro);
    assert(opened.0@.len() == opened.0.0.len());
    assert(opened.1@.len() == opened.1.0.len());
    assert(acc@.polys.len() == acc.polys.len());
    proof.push_u(opened.0.0.len());
    proof.push_gs(opened.0.0.as_slice());
    proof.push_u(opened.1.0.len());
    proof.push_f(opened.1.0.as_slice());
}

/// The points have a coordinate for each variable.
pub open spec fn points_fit(
    c: CircuitView,
    abc: Seq<int>,
    de: Seq<int>,
    suf: Seq<int>,
    pre: Seq<int>,
) -> bool {
    &&& abc.len() == log2_ceil(c.a.len() as int)
    &&& de.len() == log2_ceil(c.d.len() as int)
    &&& suf.len() == log2_ceil(c.z_len - c.weight_len)
    &&& pre.len() == log2_ceil(c.weight_len)
}

/// The state, and the polynomials with their points, before the joint opening.
pub open spec fn sparse_claims(
    srs: Seq<int>,
    c: CircuitView,
    abc: Seq<int>,
    de: Seq<int>,
    suf: Seq<int>,
    pre: Seq<int>,
    gamma: int,
    s: Sent,
) -> (Sent, Acc) {
    let s1 = send_fs(s, sparse_values(c, abc, de, suf, pre, gamma));
    let none = Acc { polys: Seq::empty(), points: Seq::empty() };
    let (s2, a1) = prove_suffix(
        srs,
        suffix_group(c),
        suffix_lens(c),
        abc,
        de,
        suf,
        gamma,
        s1,
        none,
    );
    prove_prefix(srs, prefix_group(c), abc, pre, gamma, s2, a1)
}

/// The challenges are enough for an opening of the matrices, and the inverses that
/// it needs exist.
pub open spec fn sparse_ready(
    srs: Seq<int>,
    c: CircuitView,
    abc: Seq<int>,
    de: Seq<int>,
    suf: Seq<int>,
    pre: Seq<int>,
    gamma: int,
    s: Sent,
) -> bool {
    let n1 = suffix_draws(suffix_group(c));
    let n2 = prefix_draws(prefix_group(c));
    let (s1, acc) = sparse_claims(srs, c, abc, de, suf, pre, gamma, s);
    &&& s.ch.len() >= n1 + n2
    &&& suffix_ready(suffix_group(c), abc, de, suf, gamma, s.ch)
    &&& prefix_ready(prefix_group(c), abc, pre, gamma, s.ch.skip(n1))
    &&& batch_openable(srs, acc.polys, acc.points, s.ch.skip(n1 + n2))
}

fn matrix_value(
    m: &crate::circuit::SparseMatrix,
    row_eq: &Vec<Fr>,
    col_eq: &Vec<Fr>,
    lo: usize,
    hi: usize,
    cols: usize,
    gamma: Fr,
) -> (out: Fr)
    requires
        m@.len() <= row_eq.len(),
        crate::circuit::matrix_in_range(m@, cols as int),
        lo <= cols,
        cols - lo <= col_eq.len() || hi - lo <= col_eq.len(),
    ensures
        out@ == crate::circuit::matrix_mle(
            m@,
            m@.len() as int,
            values(row_eq@),
            values(col_eq@),
            lo as int,
            hi as int,
            gamma@,
        ),
{
    proof {
        assert forall|i: int, k: int|
            0 <= i < m@.len() && 0 <= k < m@[i].len() && lo <= (#[trigger] m@[i][k]).col
                < hi implies m@[i][k].col - lo < col_eq.len() by {
            assert(crate::circuit::row_in_range(m@[i], cols as int));
        }
    }
    m.mle(row_eq, col_eq, lo, hi, gamma)
}

/// Opens the matrices of a circuit at the given points: sends their values and
/// what proves them.
pub fn sparse_open(
    kzg_pp: &MkzgProveParams,
    circuit: &Circuit,
    polys: &SparsePolys,
    point_abc: &Vec<Fr>,
    point_de: &Vec<Fr>,
    point_suf: &Vec<Fr>,
    point_pre: &Vec<Fr>,
    gamma: Fr,
    proof: &mut Proof,
    ro: &mut RandomOracle,
) -> (out: SparseEvals)
    requires
        circuit_fits(circuit@, kzg_pp@.len() as int),
        polys.holds(circuit@),
        points_fit(
            circuit@,
            values(point_abc@),
            values(point_de@),
            values(point_suf@),
            values(point_pre@),
        ),
        sparse_ready(
            kzg_pp@,
            circuit@,
            values(point_abc@),
            values(point_de@),
            values(point_suf@),
            values(point_pre@),
            gamma@,
            sent(old(proof)@, old(ro)@),
        ),
    ensures
        out@ == sparse_values(
            circuit@,
            values(point_abc@),
            values(point_de@),
            values(point_suf@),
            values(point_pre@),
            gamma@,
        ),
        sent(final(proof)@, final(ro)@) == sparse_open_of(
            kzg_pp@,
            circuit@,
            suffix_group(circuit@),
            suffix_lens(circuit@),
            prefix_group(circuit@),
            values(point_abc@),
            values(point_de@),
            values(point_suf@),
            values(point_pre@),
            gamma@,
            sent(old(proof)@, old(ro)@),
        ),
        same_source(*final(ro), *old(ro)),
{
    let ghost c = circuit@;
    let ghost s = sent(proof@, ro@);
    let ghost start = ro@;
    let ghost abc = values(point_abc@);
    let ghost de = values(point_de@);
    let ghost suf = values(point_suf@);
    let ghost pre = values(point_pre@);
    let ghost chunk = kzg_pp@.len() as int;
    proof {
        lemma_suffix_group(c, chunk);
        lemma_prefix_group(c, chunk);
        lemma_table_size(c.a.len() as int);
        lemma_table_size(c.d.len() as int);
        lemma_table_size(c.z_len - c.weight_len);
        lemma_table_size(c.weight_len);
        lemma_table_size(crate::sparse::circuit_max_pow(c) + 1);
        lemma_log2_ceil(c.a.len() as int);
        lemma_log2_ceil(c.d.len() as int);
        lemma_log2_ceil(c.z_len - c.weight_len);
        lemma_log2_ceil(c.weight_len);
        assert(abc.len() == point_abc.len() && de.len() == point_de.len());
        assert(suf.len() == point_suf.len() && pre.len() == point_pre.len());
    }
    let row_abc = eq_table_exec(point_abc);
    let row_de = eq_table_exec(point_de);
    let col_suf = eq_table_exec(point_suf);
    let col_pre = eq_table_exec(point_pre);
    let w: usize = circuit.weight_len;
    let z: usize = circuit.z_len;
    let all: usize = usize::MAX;
    let evals = SparseEvals {
        a_suf: matrix_value(&circuit.a, &row_abc, &col_suf, w, all, z, gamma),
        b_suf: matrix_value(&circuit.b, &row_abc, &col_suf, w, all, z, gamma),
        c_suf: matrix_value(&circuit.c, &row_abc, &col_suf, w, all, z, gamma),
        d_suf: matrix_value(&circuit.d, &row_de, &col_suf, w, all, z, gamma),
        e_suf: matrix_value(&circuit.e, &row_de, &col_suf, w, all, z, gamma),
        a_pre: matrix_value(&circuit.a, &row_abc, &col_pre, 0, w, z, gamma),
        b_pre: matrix_value(&circuit.b, &row_abc, &col_pre, 0, w, z, gamma),
        c_pre: matrix_value(&circuit.c, &row_abc, &col_pre, 0, w, z, gamma),
        d_pre: matrix_value(&circuit.d, &row_de, &col_pre, 0, w, z, gamma),
        e_pre: matrix_value(&circuit.e, &row_de, &col_pre, 0, w, z, gamma),
    };
    let ghost want = sparse_values(c, abc, de, suf, pre, gamma@);
    assert(evals@ =~= want) by {
        reveal(sparse_values);
    }
    proof.push_f(evals.as_array().as_slice());
    let ghost s1 = send_fs(s, want);
    assert(sent(proof@, ro@) == s1);
    let mut acc = ProverAcc::new();
    let sup = &polys.supergroups[0];
    lasso_prove_supergroup(
        kzg_pp,
        &sup.entries(),
        &sup.matrix_lens,
        point_abc,
        point_de,
        point_suf,
        gamma,
        proof,
        ro,
        &mut acc,
    );
    prove_b_pre(
        kzg_pp,
        &polys.b_pre.entries(),
        point_abc,
        point_pre,
        gamma,
        proof,
        ro,
        &mut acc,
    );
    let ghost n1 = suffix_draws(suffix_group(c));
    let ghost n2 = prefix_draws(prefix_group(c));
    assert(ro@ =~= start.skip(n1 + n2));
    batch_send(kzg_pp, &acc, proof, ro);
    evals
}

} // verus!
