//! The prover: sends what shows that a vector satisfies a circuit.
use vstd::prelude::*;
use vstd::arithmetic::power2::*;
use crate::circuit::{Circuit, CircuitView, Entry, SparseMatrix, column_value, row_value};
use crate::field::{Fr, cong, copied, tables, values};
use crate::gates::{
    constraint, constraint_gate, logup_left, logup_left_gate, product2, product2_gate,
};
use crate::kzg::{MkzgProveParams, batch_openable};
use crate::poly::{MlPoly, mle};
use crate::preprocess::{ProvingKey, table_inputs, table_ones, table_outputs, table_tags};
use crate::sparse::{
    Acc, all_invertible, circuit_fits, eq_table, lemma_table_size, one_if, prefix_group,
    prove_right, send_batch, shifted, shifted_inverses, size_limit, sparse_open_of, suffix_group,
    suffix_lens, total,
};
use crate::sparse_prover::{
    ProverAcc, batch_send, eq_prefix_table, eq_table_exec, right_exec, shifted_exec,
    shifted_inverses_exec, sparse_open, sparse_ready, taken, total_exec,
};
use crate::speaker::{
    Sent, commit_send, drawn, rounds_send, same_source, send_commit, send_fs, send_rounds, send_u,
    sent,
};
use crate::sumcheck::{lemma_log2_ceil, log2_ceil, log2_ceil_exec, values_at};
use crate::sums::sum_to;
use crate::util::{Proof, RandomOracle};

verus! {

/// The products of all the rows of a matrix with a vector.
pub open spec fn rows_value(rows: Seq<Seq<Entry>>, z: Seq<int>, gamma: int) -> Seq<int> {
    rows.map_values(|r: Seq<Entry>| row_value(r, z, gamma))
}

/// Sends the commitment to the witness and the sumcheck of the constraints: gives
/// the state and the point.
#[verifier::opaque]
pub open spec fn prove_constraints(
    srs: Seq<int>,
    c: CircuitView,
    z: Seq<int>,
    gamma: int,
    s: Sent,
) -> (Sent, Seq<int>) {
    let n = c.a.len() as int;
    let nv = log2_ceil(n) as int;
    let s1 = send_u(send_commit(s, srs, z.skip(c.weight_len)), n);
    let eq = eq_table(s1.ch.take(nv)).take(n);
    let s2 = drawn(s1, nv);
    let point = s2.ch.take(nv);
    let tabs = seq![
        rows_value(c.a, z, gamma),
        rows_value(c.b, z, gamma),
        rows_value(c.c, z, gamma),
        eq,
    ];
    let s3 = send_rounds(s2, constraint(), Seq::empty(), tabs, n, 3, nv);
    (send_fs(s3, values_at(tabs, point).take(3)), point)
}

/// The fingerprints of the lookups.
pub open spec fn lookup_prints(tp: Seq<int>, d: Seq<int>, e: Seq<int>, r: int) -> Seq<int> {
    Seq::new(d.len(), |i: int| ((tp[i] * r) + e[i]) * r + d[i])
}

/// The fingerprints of the rows of a table.
pub open spec fn table_prints(t: Seq<(int, int, int)>, r: int) -> Seq<int> {
    t.map_values(|x: (int, int, int)| ((x.2 * r) + x.1) * r + x.0)
}

/// How often each entry of a table occurs among some elements.
pub open spec fn occurrences(ele: Seq<int>, tab: Seq<int>) -> Seq<int> {
    tab.map_values(|t: int| sum_to(ele.len() as int, |i: int| one_if(cong(ele[i], t))))
}

/// The polynomials that the lookups commit to.
pub ghost struct LookupPolys {
    pub count: Seq<int>,
    pub ele_inv: Seq<int>,
    pub tab_inv: Seq<int>,
}

/// The polynomials of the lookups, for the challenges `r` and `alpha`.
pub open spec fn lookup_polys(
    c: CircuitView,
    d: Seq<int>,
    e: Seq<int>,
    r: int,
    alpha: int,
) -> LookupPolys {
    let ele = lookup_prints(c.tp, d, e, r);
    let tab = table_prints(c.table, r);
    LookupPolys {
        count: occurrences(ele, tab),
        ele_inv: shifted_inverses(ele, alpha),
        tab_inv: shifted_inverses(tab, alpha),
    }
}

/// Sends the two sides of the lookups: gives the state and the two points.
#[verifier::opaque]
pub open spec fn prove_lookups(
    srs: Seq<int>,
    c: CircuitView,
    z: Seq<int>,
    gamma: int,
    s: Sent,
) -> (Sent, Seq<int>, Seq<int>) {
    let d = rows_value(c.d, z, gamma);
    let e = rows_value(c.e, z, gamma);
    let r = s.ch[0];
    let alpha = s.ch[1];
    let s0 = drawn(s, 2);
    let ele = lookup_prints(c.tp, d, e, r);
    let tab = table_prints(c.table, r);
    let polys = lookup_polys(c, d, e, r, alpha);
    let s1 = send_commit(s0, srs, polys.count);
    let s2 = send_commit(s1, srs, polys.ele_inv);
    let s3 = send_commit(s2, srs, polys.tab_inv);
    let s4 = send_fs(s3, seq![total(polys.ele_inv)]);
    let len = ele.len() as int;
    let nv = log2_ceil(len) as int;
    let s5 = send_u(s4, len);
    let eq = eq_table(s5.ch.take(nv)).take(len);
    let s6 = drawn(s5, nv);
    let rs = s6.ch[0];
    let s7 = drawn(s6, 1);
    let pl = s7.ch.take(nv);
    let tabs = seq![shifted(ele, alpha), polys.ele_inv, eq];
    let s8 = send_fs(
        send_rounds(s7, logup_left(), seq![rs], tabs, len, 3, nv),
        values_at(tabs, pl).take(2),
    );
    let s9 = send_fs(s8, seq![mle(d, pl), mle(e, pl), mle(c.tp, pl)]);
    let (s10, pr) = prove_right(tab, polys.tab_inv, polys.count, alpha, s9);
    (s10, pl, pr)
}

/// The columns from `lo` on, `n` of them, of the product of a vector with a matrix.
pub open spec fn columns(
    rows: Seq<Seq<Entry>>,
    v: Seq<int>,
    lo: int,
    n: int,
    gamma: int,
) -> Seq<int> {
    Seq::new(n as nat, |j: int| column_value(rows, rows.len() as int, v, lo + j, gamma))
}

/// The five rows of columns that the claims are about.
pub open spec fn five_columns(
    c: CircuitView,
    p1: Seq<int>,
    pl: Seq<int>,
    lo: int,
    n: int,
    gamma: int,
) -> Seq<Seq<int>> {
    let eq1 = eq_table(p1);
    let eql = eq_table(pl);
    seq![
        columns(c.a, eq1, lo, n, gamma),
        columns(c.b, eq1, lo, n, gamma),
        columns(c.c, eq1, lo, n, gamma),
        columns(c.d, eql, lo, n, gamma),
        columns(c.e, eql, lo, n, gamma),
    ]
}

/// The sum of the products of two sequences.
pub open spec fn dot(a: Seq<int>, b: Seq<int>) -> int {
    sum_to(a.len() as int, |i: int| a[i] * b[i])
}

/// Five rows joined by the powers of `r`.
pub open spec fn joined(m: Seq<Seq<int>>, r: int) -> Seq<int> {
    Seq::new(
        m[0].len(),
        |i: int| (((m[4][i] * r + m[3][i]) * r + m[2][i]) * r + m[1][i]) * r + m[0][i],
    )
}

/// Sends the products of five rows with a vector, and the sumcheck that joins
/// them: gives the state and the point.
#[verifier::opaque]
pub open spec fn prove_linear(m: Seq<Seq<int>>, z: Seq<int>, s: Sent) -> (Sent, Seq<int>) {
    let s1 = send_fs(
        s,
        seq![dot(m[0], z), dot(m[1], z), dot(m[2], z), dot(m[3], z), dot(m[4], z)],
    );
    let r = s1.ch[0];
    let len = z.len() as int;
    let nv = log2_ceil(len) as int;
    let s2 = send_u(drawn(s1, 1), nv);
    let point = s2.ch.take(nv);
    let tabs = seq![joined(m, r), z];
    let s3 = send_rounds(s2, product2(), Seq::empty(), tabs, len, 2, nv);
    (send_fs(s3, values_at(tabs, point)), point)
}

/// The polynomials that the witness commits to, with their points.
pub open spec fn witness_acc(
    c: CircuitView,
    z: Seq<int>,
    gamma: int,
    r: int,
    alpha: int,
    ps: Seq<int>,
    pl: Seq<int>,
    pr: Seq<int>,
) -> Acc {
    let polys = lookup_polys(
        c,
        rows_value(c.d, z, gamma),
        rows_value(c.e, z, gamma),
        r,
        alpha,
    );
    Acc {
        polys: seq![z.skip(c.weight_len), polys.count, polys.ele_inv, polys.tab_inv],
        points: seq![ps, pr, pl, pr],
    }
}

/// The public polynomials of a circuit, with their points.
pub open spec fn public_acc(c: CircuitView, pp: Seq<int>, pl: Seq<int>, pr: Seq<int>) -> Acc {
    Acc {
        polys: seq![
            c.weights,
            c.tp,
            table_inputs(c.table),
            table_outputs(c.table),
            table_tags(c.table),
            table_ones(c.table),
        ],
        points: seq![pp, pl, pr, pr, pr, pr],
    }
}

/// The values of the public polynomials at their points.
pub open spec fn public_values(
    c: CircuitView,
    pp: Seq<int>,
    pl: Seq<int>,
    pr: Seq<int>,
) -> Seq<int> {
    seq![
        mle(c.weights, pp),
        mle(c.tp, pl),
        mle(table_inputs(c.table), pr),
        mle(table_outputs(c.table), pr),
        mle(table_tags(c.table), pr),
        mle(table_ones(c.table), pr),
    ]
}

/// The states and points of a proof, one after the other.
pub ghost struct Stages {
    pub s1: Sent,
    pub p1: Seq<int>,
    pub s2: Sent,
    pub pl: Seq<int>,
    pub pr: Seq<int>,
    pub s3: Sent,
    pub ps: Seq<int>,
    pub s4: Sent,
    pub s5: Sent,
    pub pp: Seq<int>,
    pub s6: Sent,
    pub s7: Sent,
    pub s8: Sent,
}

/// A proof, stage by stage.
#[verifier::opaque]
pub open spec fn prove_stages(
    srs: Seq<int>,
    c: CircuitView,
    z: Seq<int>,
    gamma: int,
    s: Sent,
) -> Stages {
    let wl = c.weight_len;
    let (s1, p1) = prove_constraints(srs, c, z, gamma, s);
    let (s2, pl, pr) = prove_lookups(srs, c, z, gamma, s1);
    let (s3, ps) = prove_linear(
        five_columns(c, p1, pl, wl, z.len() - wl, gamma),
        z.skip(wl),
        s2,
    );
    let s4 = send_batch(
        srs,
        witness_acc(c, z, gamma, s1.ch[0], s1.ch[1], ps, pl, pr),
        s3,
    );
    let (s5, pp) = prove_linear(five_columns(c, p1, pl, 0, wl, gamma), z.take(wl), s4);
    let s6 = sparse_open_of(
        srs,
        c,
        suffix_group(c),
        suffix_lens(c),
        prefix_group(c),
        p1,
        pl,
        ps,
        pp,
        gamma,
        s5,
    );
    let s7 = send_fs(s6, public_values(c, pp, pl, pr));
    let s8 = send_batch(srs, public_acc(c, pp, pl, pr), s7);
    Stages { s1, p1, s2, pl, pr, s3, ps, s4, s5, pp, s6, s7, s8 }
}

/// Nothing sent yet.
pub open spec fn fresh(ch: Seq<int>) -> Sent {
    Sent { u: Seq::empty(), f: Seq::empty(), g: Seq::empty(), ch }
}

/// What the prover sends for a vector and a circuit.
pub open spec fn prove_of(
    srs: Seq<int>,
    c: CircuitView,
    z: Seq<int>,
    gamma: int,
    ch: Seq<int>,
) -> Sent {
    prove_stages(srs, c, z, gamma, fresh(ch)).s8
}

/// A circuit has rows, lookups, table rows, witness cells and parameters enough
/// for its sumchecks.
pub open spec fn provable(c: CircuitView) -> bool {
    &&& c.a.len() >= 2
    &&& c.d.len() >= 2
    &&& c.table.len() >= 2
    &&& c.z_len - c.weight_len >= 2
    &&& c.weight_len >= 2
}

/// The inverses that the lookups need exist.
pub open spec fn lookups_ready(c: CircuitView, z: Seq<int>, gamma: int, ch: Seq<int>) -> bool {
    let ele = lookup_prints(
        c.tp,
        rows_value(c.d, z, gamma),
        rows_value(c.e, z, gamma),
        ch[0],
    );
    let tab = table_prints(c.table, ch[0]);
    all_invertible(ele, ch[1]) && all_invertible(tab, ch[1])
}

/// The number of challenges of the constraints.
pub open spec fn constraint_draws(c: CircuitView) -> int {
    2 * log2_ceil(c.a.len() as int) as int
}

/// The number of challenges of the lookups.
pub open spec fn lookup_draws(c: CircuitView) -> int {
    4 + 2 * log2_ceil(c.d.len() as int) as int + 2 * log2_ceil(c.table.len() as int) as int
}

/// The number of challenges of a joined product with `n` cells.
pub open spec fn linear_draws(n: int) -> int {
    1 + log2_ceil(n) as int
}

/// The challenges are enough for a proof, and the inverses that it needs exist.
pub open spec fn prove_ready(
    srs: Seq<int>,
    c: CircuitView,
    z: Seq<int>,
    gamma: int,
    ch: Seq<int>,
) -> bool {
    let t = prove_stages(srs, c, z, gamma, fresh(ch));
    let w = witness_acc(c, z, gamma, t.s1.ch[0], t.s1.ch[1], t.ps, t.pl, t.pr);
    let p = public_acc(c, t.pp, t.pl, t.pr);
    &&& ch.len() >= constraint_draws(c)
    &&& t.s1.ch.len() >= lookup_draws(c)
    &&& lookups_ready(c, z, gamma, t.s1.ch)
    &&& t.s2.ch.len() >= linear_draws(c.z_len - c.weight_len)
    &&& batch_openable(srs, w.polys, w.points, t.s3.ch)
    &&& t.s4.ch.len() >= linear_draws(c.weight_len)
    &&& sparse_ready(srs, c, t.p1, t.pl, t.ps, t.pp, gamma, t.s5)
    &&& batch_openable(srs, p.polys, p.points, t.s7.ch)
}

fn rows_value_exec(m: &SparseMatrix, z: &Vec<Fr>, gamma: Fr) -> (out: Vec<Fr>)
    requires
        crate::circuit::matrix_in_range(m@, z.len() as int),
    ensures
        values(out@) == rows_value(m@, values(z@), gamma@),
        out.len() == m@.len(),
{
    let n: usize = m.len();
    let mut out: Vec<Fr> = Vec::new();
    let ghost rows = m@;
    for i in 0..n
        invariant
            rows == m@,
            n == rows.len(),
            crate::circuit::matrix_in_range(rows, z.len() as int),
            out.len() == i,
            forall|j: int|
                0 <= j < i ==> (#[trigger] out[j])@ == row_value(rows[j], values(z@), gamma@),
    {
        assert(crate::circuit::row_in_range(rows[i as int], z.len() as int));
        out.push(m.mult_vec_at(i, z, gamma));
    }
    assert(values(out@) =~= rows_value(rows, values(z@), gamma@));
    out
}

fn constraints_exec(
    srs: &MkzgProveParams,
    c: &Circuit,
    z: &Vec<Fr>,
    suffix: &MlPoly,
    gamma: Fr,
    proof: &mut Proof,
    ro: &mut RandomOracle,
) -> (point: Vec<Fr>)
    requires
        circuit_fits(c@, srs@.len() as int),
        provable(c@),
        z.len() == c@.z_len,
        suffix@ == values(z@).skip(c@.weight_len),
        old(ro)@.len() >= constraint_draws(c@),
    ensures
        (sent(final(proof)@, final(ro)@), values(point@)) == prove_constraints(
            srs@,
            c@,
            values(z@),
            gamma@,
            sent(old(proof)@, old(ro)@),
        ),
        point.len() == log2_ceil(c@.a.len() as int),
        final(ro)@ == old(ro)@.skip(constraint_draws(c@)),
        same_source(*final(ro), *old(ro)),
{
    reveal(prove_constraints);
    let ghost cv = c@;
    let ghost zv = values(z@);
    let ghost s = sent(proof@, ro@);
    let n: usize = c.a.len();
    let nv: usize = log2_ceil_exec(n);
    proof {
        lemma_table_size(n as int);
        lemma_log2_ceil(n as int);
        assert(suffix@.len() == suffix.0.len());
    }
    commit_send(srs, suffix, proof);
    proof.push_u(n);
    let ghost s1 = send_u(send_commit(s, srs@, suffix@), n as int);
    assert(sent(proof@, ro@) == s1);
    let req = ro.next_n_fields(nv);
    assert(values(req@).len() == req.len());
    let eq = eq_prefix_table(&req, n);
    let mut tabs: Vec<Vec<Fr>> = Vec::new();
    tabs.push(rows_value_exec(&c.a, z, gamma));
    tabs.push(rows_value_exec(&c.b, z, gamma));
    tabs.push(rows_value_exec(&c.c, z, gamma));
    tabs.push(eq);
    let ghost tv = seq![
        rows_value(cv.a, zv, gamma@),
        rows_value(cv.b, zv, gamma@),
        rows_value(cv.c, zv, gamma@),
        eq_table(s1.ch.take(nv as int)).take(n as int),
    ];
    assert(tables(tabs@) =~= tv);
    assert(tabs[0].len() == n);
    let none: Vec<Fr> = Vec::new();
    assert(values(none@) =~= Seq::<int>::empty());
    let done = rounds_send(&constraint_gate(), &none, tabs, 3, nv, proof, ro);
    proof.push_f(taken(&done.1, 3).as_slice());
    assert(ro@ =~= old(ro)@.skip(constraint_draws(cv)));
    done.0
}

fn lookup_prints_exec(tp: &Vec<Fr>, d: &Vec<Fr>, e: &Vec<Fr>, r: Fr) -> (out: Vec<Fr>)
    requires
        tp.len() == d.len(),
        e.len() == d.len(),
    ensures
        values(out@) == lookup_prints(values(tp@), values(d@), values(e@), r@),
        out.len() == d.len(),
{
    let mut out: Vec<Fr> = Vec::new();
    for i in 0..d.len()
        invariant
            tp.len() == d.len(),
            e.len() == d.len(),
            out.len() == i,
            forall|j: int|
                0 <= j < i ==> (#[trigger] out[j])@ == ((tp[j]@ * r@) + e[j]@) * r@ + d[j]@,
    {
        out.push(((tp[i] * r) + e[i]) * r + d[i]);
    }
    assert(values(out@) =~= lookup_prints(values(tp@), values(d@), values(e@), r@));
    out
}

fn table_prints_exec(t: &Vec<(Fr, Fr, Fr)>, r: Fr) -> (out: Vec<Fr>)
    ensures
        values(out@) == table_prints(crate::circuit::table_rows(t@), r@),
        out.len() == t.len(),
{
    let mut out: Vec<Fr> = Vec::new();
    let ghost tv = crate::circuit::table_rows(t@);
    for i in 0..t.len()
        invariant
            tv == crate::circuit::table_rows(t@),
            out.len() == i,
            forall|j: int| 0 <= j < i ==> (#[trigger] out[j])@ == table_prints(tv, r@)[j],
    {
        out.push(((t[i].2 * r) + t[i].1) * r + t[i].0);
    }
    assert(values(out@) =~= table_prints(tv, r@));
    out
}

/// How often each entry of a table occurs among some elements.
pub fn count(ele: &Vec<Fr>, tab: &Vec<Fr>) -> (out: Vec<Fr>)
    ensures
        values(out@) == occurrences(values(ele@), values(tab@)),
        out.len() == tab.len(),
{
    let mut out: Vec<Fr> = Vec::new();
    let ghost ev = values(ele@);
    let ghost tv = values(tab@);
    for t in 0..tab.len()
        invariant
            ev == values(ele@),
            tv == values(tab@),
            out.len() == t,
            forall|j: int| 0 <= j < t ==> (#[trigger] out[j])@ == occurrences(ev, tv)[j],
    {
        let mut n: usize = 0;
        let x = tab[t];
        for i in 0..ele.len()
            invariant
                ev == values(ele@),
                n <= i,
                n == sum_to(
                    i as int,
                    |i: int| one_if(cong(ev[i], x@)),
                ),
        {
            if ele[i] == x {
                n = n + 1;
            }
        }
        out.push(Fr::from_usize(n));
        assert(tv[t as int] == x@);
    }
    assert(values(out@) =~= occurrences(ev, tv));
    out
}

fn lookups_exec(
    srs: &MkzgProveParams,
    c: &Circuit,
    z: &Vec<Fr>,
    gamma: Fr,
    proof: &mut Proof,
    ro: &mut RandomOracle,
) -> (out: (Vec<Fr>, Vec<Fr>, (MlPoly, MlPoly, MlPoly)))
    requires
        circuit_fits(c@, srs@.len() as int),
        provable(c@),
        z.len() == c@.z_len,
        old(ro)@.len() >= lookup_draws(c@),
        lookups_ready(c@, values(z@), gamma@, old(ro)@),
    ensures
        (sent(final(proof)@, final(ro)@), values(out.0@), values(out.1@)) == prove_lookups(
            srs@,
            c@,
            values(z@),
            gamma@,
            sent(old(proof)@, old(ro)@),
        ),
        ({
            let l = lookup_polys(
                c@,
                rows_value(c@.d, values(z@), gamma@),
                rows_value(c@.e, values(z@), gamma@),
                old(ro)@[0],
                old(ro)@[1],
            );
            (out.2).0@ == l.count && (out.2).1@ == l.ele_inv && (out.2).2@ == l.tab_inv
        }),
        out.0.len() == log2_ceil(c@.d.len() as int),
        out.1.len() == log2_ceil(c@.table.len() as int),
        final(ro)@ == old(ro)@.skip(lookup_draws(c@)),
        same_source(*final(ro), *old(ro)),
{
    reveal(prove_lookups);
    let ghost cv = c@;
    let ghost zv = values(z@);
    let ghost start = ro@;
    let ghost s = sent(proof@, ro@);
    let ghost srsv = srs@;
    proof {
        assert(cv.tp.len() == c.tp.len());
        assert(cv.table.len() == c.table.len());
        lemma_table_size(cv.d.len() as int);
        lemma_table_size(cv.table.len() as int);
        lemma_log2_ceil(cv.d.len() as int);
    }
    let d = rows_value_exec(&c.d, z, gamma);
    let e = rows_value_exec(&c.e, z, gamma);
    let r = ro.next_field();
    let alpha = ro.next_field();
    assert(ro@ =~= start.skip(2));
    let ele = lookup_prints_exec(&c.tp, &d, &e, r);
    let tab = table_prints_exec(&c.table, r);
    let cnt = MlPoly(count(&ele, &tab));
    let ele_inv = MlPoly(shifted_inverses_exec(&ele, alpha));
    let tab_inv = MlPoly(shifted_inverses_exec(&tab, alpha));
    let ghost polys = lookup_polys(cv, values(d@), values(e@), r@, alpha@);
    commit_send(srs, &cnt, proof);
    commit_send(srs, &ele_inv, proof);
    commit_send(srs, &tab_inv, proof);
    let ghost s3 = send_commit(
        send_commit(send_commit(drawn(s, 2), srsv, polys.count), srsv, polys.ele_inv),
        srsv,
        polys.tab_inv,
    );
    assert(sent(proof@, ro@) == s3);
    let mut sums: Vec<Fr> = Vec::new();
    sums.push(total_exec(&ele_inv.0));
    assert(values(sums@) =~= seq![total(polys.ele_inv)]);
    proof.push_f(sums.as_slice());
    let len: usize = ele.len();
    let nv: usize = log2_ceil_exec(len);
    proof.push_u(len);
    let ghost s5 = send_u(send_fs(s3, seq![total(polys.ele_inv)]), len as int);
    assert(sent(proof@, ro@) == s5);
    let req = ro.next_n_fields(nv);
    assert(values(req@).len() == req.len());
    let eq = eq_prefix_table(&req, len);
    let rs = ro.next_field();
    assert(ro@ =~= start.skip(3 + nv));
    let mut coins: Vec<Fr> = Vec::new();
    coins.push(rs);
    assert(values(coins@) =~= seq![rs@]);
    let mut tabs: Vec<Vec<Fr>> = Vec::new();
    tabs.push(shifted_exec(&ele, alpha));
    tabs.push(copied(&ele_inv.0));
    tabs.push(eq);
    let ghost tv = seq![
        shifted(values(ele@), alpha@),
        polys.ele_inv,
        eq_table(s5.ch.take(nv as int)).take(len as int),
    ];
    assert(tables(tabs@) =~= tv);
    assert(tabs[0].len() == len);
    let ghost s7 = drawn(drawn(s5, nv as int), 1);
    assert(sent(proof@, ro@).ch =~= s7.ch);
    let done = rounds_send(&logup_left_gate(), &coins, tabs, 3, nv, proof, ro);
    assert(ro@ =~= start.skip(3 + 2 * nv));
    proof.push_f(taken(&done.1, 2).as_slice());
    let pl = done.0;
    let ghost plv = values(pl@);
    let mut evals: Vec<Fr> = Vec::new();
    evals.push(MlPoly(copied(&d)).eval(pl.as_slice()));
    evals.push(MlPoly(copied(&e)).eval(pl.as_slice()));
    evals.push(MlPoly(copied(&c.tp)).eval(pl.as_slice()));
    assert(values(evals@) =~= seq![mle(values(d@), plv), mle(values(e@), plv), mle(cv.tp, plv)]);
    proof.push_f(evals.as_slice());
    let pr = right_exec(&tab, &tab_inv.0, &cnt.0, alpha, proof, ro);
    assert(ro@ =~= start.skip(lookup_draws(cv)));
    (pl, pr, (cnt, ele_inv, tab_inv))
}

fn dot_exec(a: &Vec<Fr>, b: &Vec<Fr>) -> (out: Fr)
    requires
        a.len() == b.len(),
    ensures
        out@ == dot(values(a@), values(b@)),
{
    let mut out = Fr::zero();
    let ghost av = values(a@);
    let ghost bv = values(b@);
    for i in 0..a.len()
        invariant
            a.len() == b.len(),
            av == values(a@),
            bv == values(b@),
            out@ == sum_to(i as int, |i: int| av[i] * bv[i]),
    {
        out = out + a[i] * b[i];
    }
    out
}

fn linear_exec(
    m: &Vec<Vec<Fr>>,
    z: &Vec<Fr>,
    proof: &mut Proof,
    ro: &mut RandomOracle,
) -> (point: Vec<Fr>)
    requires
        m.len() == 5,
        crate::sumcheck::same_len(tables(m@), z.len() as int),
        0 < z.len() <= size_limit(),
        old(ro)@.len() >= linear_draws(z.len() as int),
    ensures
        (sent(final(proof)@, final(ro)@), values(point@)) == prove_linear(
            tables(m@),
            values(z@),
            sent(old(proof)@, old(ro)@),
        ),
        point.len() == log2_ceil(z.len() as int),
        final(ro)@ == old(ro)@.skip(linear_draws(z.len() as int)),
        same_source(*final(ro), *old(ro)),
{
    reveal(prove_linear);
    let ghost mv = tables(m@);
    let ghost zv = values(z@);
    let ghost s = sent(proof@, ro@);
    let len: usize = z.len();
    proof {
        assert(mv[0].len() == len && mv[1].len() == len && mv[2].len() == len && mv[3].len() == len
            && mv[4].len() == len);
        assert(mv[0] == values(m[0]@) && mv[1] == values(m[1]@) && mv[2] == values(m[2]@) && mv[3]
            == values(m[3]@) && mv[4] == values(m[4]@));
        lemma_table_size(len as int);
        lemma_log2_ceil(len as int);
    }
    let mut sums: Vec<Fr> = Vec::new();
    sums.push(dot_exec(&m[0], z));
    sums.push(dot_exec(&m[1], z));
    sums.push(dot_exec(&m[2], z));
    sums.push(dot_exec(&m[3], z));
    sums.push(dot_exec(&m[4], z));
    let ghost sv = seq![
        dot(mv[0], zv),
        dot(mv[1], zv),
        dot(mv[2], zv),
        dot(mv[3], zv),
        dot(mv[4], zv),
    ];
    assert(values(sums@) =~= sv);
    proof.push_f(sums.as_slice());
    let r = ro.next_field();
    let mut join: Vec<Fr> = Vec::new();
    for i in 0..len
        invariant
            m.len() == 5,
            len == z.len(),
            mv == tables(m@),
            m[0].len() == len,
            m[1].len() == len,
            m[2].len() == len,
            m[3].len() == len,
            m[4].len() == len,
            mv[0] == values(m[0]@),
            mv[1] == values(m[1]@),
            mv[2] == values(m[2]@),
            mv[3] == values(m[3]@),
            mv[4] == values(m[4]@),
            join.len() == i,
            forall|j: int| 0 <= j < i ==> (#[trigger] join[j])@ == joined(mv, r@)[j],
    {
        join.push((((m[4][i] * r + m[3][i]) * r + m[2][i]) * r + m[1][i]) * r + m[0][i]);
    }
    assert(values(join@) =~= joined(mv, r@));
    let nv: usize = log2_ceil_exec(len);
    proof.push_u(nv);
    let ghost s2 = send_u(drawn(send_fs(s, sv), 1), nv as int);
    assert(sent(proof@, ro@).ch =~= s2.ch);
    let mut tabs: Vec<Vec<Fr>> = Vec::new();
    tabs.push(join);
    tabs.push(copied(z));
    assert(tables(tabs@) =~= seq![joined(mv, r@), zv]);
    assert(tabs[0].len() == len);
    let none: Vec<Fr> = Vec::new();
    assert(values(none@) =~= Seq::<int>::empty());
    let done = rounds_send(&product2_gate(), &none, tabs, 2, nv, proof, ro);
    proof.push_f(done.1.as_slice());
    assert(ro@ =~= old(ro)@.skip(linear_draws(len as int)));
    done.0
}

/// The five rows of columns from `wl` on.
fn suffix_columns(
    c: &Circuit,
    p1: &Vec<Fr>,
    pl: &Vec<Fr>,
    cols: usize,
    gamma: Fr,
) -> (out: Vec<Vec<Fr>>)
    requires
        circuit_fits(c@, 1),
        cols == c@.z_len,
        p1.len() == log2_ceil(c@.a.len() as int),
        pl.len() == log2_ceil(c@.d.len() as int),
    ensures
        tables(out@) == five_columns(
            c@,
            values(p1@),
            values(pl@),
            c@.weight_len,
            cols - c@.weight_len,
            gamma@,
        ),
        out.len() == 5,
{
    proof {
        lemma_table_size(c@.a.len() as int);
        lemma_log2_ceil(c@.a.len() as int);
        lemma_table_size(c@.d.len() as int);
        lemma_log2_ceil(c@.d.len() as int);
    }
    let eq1 = eq_table_exec(p1);
    let eql = eq_table_exec(pl);
    let w: usize = c.weight_len;
    let mut out: Vec<Vec<Fr>> = Vec::new();
    out.push(c.a.vec_mult_suf(&eq1, cols, w, gamma));
    out.push(c.b.vec_mult_suf(&eq1, cols, w, gamma));
    out.push(c.c.vec_mult_suf(&eq1, cols, w, gamma));
    out.push(c.d.vec_mult_suf(&eql, cols, w, gamma));
    out.push(c.e.vec_mult_suf(&eql, cols, w, gamma));
    let ghost want = five_columns(c@, values(p1@), values(pl@), w as int, cols - w, gamma@);
    assert(values(out[0]@) =~= want[0]);
    assert(values(out[1]@) =~= want[1]);
    assert(values(out[2]@) =~= want[2]);
    assert(values(out[3]@) =~= want[3]);
    assert(values(out[4]@) =~= want[4]);
    assert(tables(out@) =~= want);
    out
}

/// The five rows of columns before `wl`.
fn prefix_columns(c: &Circuit, p1: &Vec<Fr>, pl: &Vec<Fr>, gamma: Fr) -> (out: Vec<Vec<Fr>>)
    requires
        circuit_fits(c@, 1),
        p1.len() == log2_ceil(c@.a.len() as int),
        pl.len() == log2_ceil(c@.d.len() as int),
    ensures
        tables(out@) == five_columns(
            c@,
            values(p1@),
            values(pl@),
            0,
            c@.weight_len,
            gamma@,
        ),
        out.len() == 5,
{
    let ghost cv = c@;
    proof {
        lemma_table_size(c@.a.len() as int);
        lemma_log2_ceil(c@.a.len() as int);
        lemma_table_size(c@.d.len() as int);
        lemma_log2_ceil(c@.d.len() as int);
        lemma_wide(cv.a, cv.z_len);
        lemma_wide(cv.b, cv.z_len);
        lemma_wide(cv.c, cv.z_len);
        lemma_wide(cv.d, cv.z_len);
        lemma_wide(cv.e, cv.z_len);
    }
    let eq1 = eq_table_exec(p1);
    let eql = eq_table_exec(pl);
    let w: usize = c.weight_len;
    let mut out: Vec<Vec<Fr>> = Vec::new();
    out.push(c.a.vec_mult_pre(&eq1, w, gamma));
    out.push(c.b.vec_mult_pre(&eq1, w, gamma));
    out.push(c.c.vec_mult_pre(&eq1, w, gamma));
    out.push(c.d.vec_mult_pre(&eql, w, gamma));
    out.push(c.e.vec_mult_pre(&eql, w, gamma));
    let ghost want = five_columns(c@, values(p1@), values(pl@), 0, w as int, gamma@);
    assert(values(out[0]@) =~= want[0]);
    assert(values(out[1]@) =~= want[1]);
    assert(values(out[2]@) =~= want[2]);
    assert(values(out[3]@) =~= want[3]);
    assert(values(out[4]@) =~= want[4]);
    assert(tables(out@) =~= want);
    out
}

proof fn lemma_wide(rows: Seq<Seq<Entry>>, n: int)
    requires
        crate::circuit::matrix_in_range(rows, n),
        n <= usize::MAX,
    ensures
        crate::circuit::matrix_in_range(rows, usize::MAX + 1),
{
    assert forall|i: int| 0 <= i < rows.len() implies crate::circuit::row_in_range(
        #[trigger] rows[i],
        usize::MAX + 1,
    ) by {
        assert(crate::circuit::row_in_range(rows[i], n));
    }
}

/// A prover for one circuit.
pub struct Prover {
    pk: ProvingKey,
}

impl Prover {
    /// The key of the prover.
    pub closed spec fn key(&self) -> ProvingKey {
        self.pk
    }

    /// The prover with a key.
    pub fn new(pk: ProvingKey) -> (out: Prover)
        ensures
            out.key() == pk,
    {
        Prover { pk }
    }

    /// The proof that a vector satisfies the circuit.
    #[verifier::rlimit(60)]
    pub fn prove(&self, z: &Vec<Fr>, gamma: Fr, ro: &mut RandomOracle) -> (out: Proof)
        requires
            self.key().consistent(),
            provable(self.key().circuit@),
            z.len() == self.key().circuit@.z_len,
            prove_ready(
                self.key().kzg_pp@,
                self.key().circuit@,
                values(z@),
                gamma@,
                old(ro)@,
            ),
        ensures
            sent(out@, final(ro)@) == prove_of(
                self.key().kzg_pp@,
                self.key().circuit@,
                values(z@),
                gamma@,
                old(ro)@,
            ),
            same_source(*final(ro), *old(ro)),
    {
        reveal(prove_stages);
        let c = &self.pk.circuit;
        let srs = &self.pk.kzg_pp;
        let ghost cv = c@;
        let ghost zv = values(z@);
        let ghost t = prove_stages(srs@, cv, zv, gamma@, fresh(ro@));
        let mut proof = Proof::new();
        let wl: usize = c.weight_len;
        let n: usize = z.len();
        let mut suffix: Vec<Fr> = Vec::new();
        for i in wl..n
            invariant
                wl <= i <= n,
                n == z.len(),
                zv == values(z@),
                values(suffix@) == zv.subrange(wl as int, i as int),
        {
            let ghost before = values(suffix@);
            suffix.push(z[i]);
            assert(values(suffix@) =~= before.push(zv[i as int]));
            assert(values(suffix@) =~= zv.subrange(wl as int, i + 1));
        }
        let suffix_poly = MlPoly(suffix);
        assert(suffix_poly@ =~= zv.skip(wl as int));
        let prefix = taken(z, wl);
        assert(sent(proof@, ro@) == fresh(ro@));
        let p1 = constraints_exec(srs, c, z, &suffix_poly, gamma, &mut proof, ro);
        assert(sent(proof@, ro@) == t.s1);
        let (pl, pr, lp) = lookups_exec(srs, c, z, gamma, &mut proof, ro);
        assert(sent(proof@, ro@) == t.s2);
        let sufs = suffix_columns(c, &p1, &pl, n, gamma);
        assert(suffix_poly@.len() == suffix_poly.0.len());
        let ps = linear_exec(&sufs, &suffix_poly.0, &mut proof, ro);
        assert(sent(proof@, ro@) == t.s3);
        let (cnt, ele_inv, tab_inv) = lp;
        let mut acc = ProverAcc::new();
        acc.push(suffix_poly, copied(&ps));
        acc.push(cnt, copied(&pr));
        acc.push(ele_inv, copied(&pl));
        acc.push(tab_inv, copied(&pr));
        let ghost w = witness_acc(cv, zv, gamma@, t.s1.ch[0], t.s1.ch[1], t.ps, t.pl, t.pr);
        assert(acc@.polys =~= w.polys);
        assert(acc@.points =~= w.points);
        batch_send(srs, &acc, &mut proof, ro);
        assert(sent(proof@, ro@) == t.s4);
        let pres = prefix_columns(c, &p1, &pl, gamma);
        let pp = linear_exec(&pres, &prefix, &mut proof, ro);
        assert(sent(proof@, ro@) == t.s5);
        let _ = sparse_open(
            srs,
            c,
            &self.pk.sparse_polys,
            &p1,
            &pl,
            &ps,
            &pp,
            gamma,
            &mut proof,
            ro,
        );
        assert(sent(proof@, ro@) == t.s6);
        self.public_exec(&pp, &pl, &pr, &mut proof, ro);
        proof
    }

    /// Sends the values of the public polynomials, and their joint opening.
    fn public_exec(
        &self,
        pp: &Vec<Fr>,
        pl: &Vec<Fr>,
        pr: &Vec<Fr>,
        proof: &mut Proof,
        ro: &mut RandomOracle,
    )
        requires
            self.key().consistent(),
            provable(self.key().circuit@),
            pp.len() == log2_ceil(self.key().circuit@.weight_len),
            pl.len() == log2_ceil(self.key().circuit@.d.len() as int),
            pr.len() == log2_ceil(self.key().circuit@.table.len() as int),
            ({
                let a = public_acc(
                    self.key().circuit@,
                    values(pp@),
                    values(pl@),
                    values(pr@),
                );
                batch_openable(self.key().kzg_pp@, a.polys, a.points, old(ro)@)
            }),
        ensures
            sent(final(proof)@, final(ro)@) == send_batch(
                self.key().kzg_pp@,
                public_acc(self.key().circuit@, values(pp@), values(pl@), values(pr@)),
                send_fs(
                    sent(old(proof)@, old(ro)@),
                    public_values(self.key().circuit@, values(pp@), values(pl@), values(pr@)),
                ),
            ),
            same_source(*final(ro), *old(ro)),
    {
        let dense = &self.pk.dense_public_polys;
        let ghost c = self.pk.circuit@;
        proof {
            lemma_log2_ceil(c.weight_len);
            lemma_log2_ceil(c.d.len() as int);
            lemma_log2_ceil(c.table.len() as int);
            assert(dense.weights@.len() == dense.weights.0.len());
            assert(dense.tp@.len() == dense.tp.0.len());
            assert(dense.table_i@.len() == dense.table_i.0.len());
            assert(dense.table_j@.len() == dense.table_j.0.len());
            assert(dense.table_k@.len() == dense.table_k.0.len());
            assert(dense.table_one@.len() == dense.table_one.0.len());
        }
        let mut evals: Vec<Fr> = Vec::new();
        evals.push(dense.weights.copy().eval(pp.as_slice()));
        evals.push(dense.tp.copy().eval(pl.as_slice()));
        evals.push(dense.table_i.copy().eval(pr.as_slice()));
        evals.push(dense.table_j.copy().eval(pr.as_slice()));
        evals.push(dense.table_k.copy().eval(pr.as_slice()));
        evals.push(dense.table_one.copy().eval(pr.as_slice()));
        assert(values(evals@) =~= public_values(c, values(pp@), values(pl@), values(pr@)));
        proof.push_f(evals.as_slice());
        let mut acc = ProverAcc::new();
        acc.push(dense.weights.copy(), copied(pp));
        acc.push(dense.tp.copy(), copied(pl));
        acc.push(dense.table_i.copy(), copied(pr));
        acc.push(dense.table_j.copy(), copied(pr));
        acc.push(dense.table_k.copy(), copied(pr));
        acc.push(dense.table_one.copy(), copied(pr));
        let ghost a = public_acc(c, values(pp@), values(pl@), values(pr@));
        assert(acc@.polys =~= a.polys);
        assert(acc@.points =~= a.points);
        batch_send(&self.pk.kzg_pp, &acc, proof, ro);
    }
}

} // verus!
