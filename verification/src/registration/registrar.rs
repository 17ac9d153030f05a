//! Certificates: making and checking them.
use vstd::prelude::*;
use vstd::arithmetic::power::*;
use vstd::arithmetic::power2::*;
use crate::channel::Channel;
use crate::circuit::CircuitView;
use crate::field::{Fr, copied, filled, invertible, tables, values};
use crate::kzg::{MkzgCommit, commit_of};
use crate::poly::{MlPoly, mle};
use crate::preprocess::{ProvingKey, VerifierKey};
use crate::prover::fresh;
use crate::registration::accepted::law_public;
use crate::registration::args::{
    all_have_inverses, eq_sumcheck_prove, eq_sumcheck_verify, frac_sum_prove, frac_sum_verify,
    layer_draws, lemma_leaf_log, pad_to,
};
use crate::registration::certificate::{
    CheckState, ProofState, block_tabs, blocks_draws, boundary_of, certifiable, certificate_of,
    checks_draws, circuit_vectors, claimed_at, claimed_boundaries, column_of, columns_of, commit_at,
    committed_values, denominators, equalities_draws, equality_draws, fingerprint, key_counts,
    lemma_tabs_of, num_boundaries, num_committed, numerators, opened_at, opened_boundaries,
    profile_matches, prove_block, prove_blocks, prove_check, prove_checks, prove_equalities,
    prove_equality, prove_rules, public_at, public_column, read_values, registrable, settled,
    tabs_of, trimmed, vector_of, vectors_fit, verify_block, verify_blocks, verify_check,
    verify_checks, verify_equalities, verify_equality, verify_rules,
};
use crate::registration::columns::lemma_entry_rows;
use crate::registration::encode::{
    EncodingView, ProgramEncoding, RuleViolation, check_compilation, encoding_fits, lemma_counters,
    shaped, violation, violation_text,
};
use crate::registration::family::NUM_FAMILIES;
use crate::registration::relation::{
    Block, BlockView, CheckView, Equality, EqualityView, Lin, LinView, NUM_CHALLENGES, Tab,
    ZeroCheck, block_views, build_rules, check_views, equalities_of, equality_views, lemma_place,
    lin_covered, lin_value, lin_views, place, rules_of, zero_checks_of,
};
use crate::registration::wellformed::{
    block_wf, blocks_wf, check_wf, equality_wf, lemma_checks_wf, lemma_equalities_wf, tab_wf,
    tabs_wf,
};
use crate::registration::witness::{
    NUM_COUNTERS, ProfileView, ProgramCommits, ProgramWitness, RegistrationProfile, circuit_profile,
    lemma_cumulated, lemma_share_sum, lemma_witness_len, log_srs_of, of_circuit, of_program,
    profile_fits, slacks_in_range, tab_log, tab_ok, witness_of,
};
use crate::sparse::{
    SparsePolys, cumulated, indices, lemma_prefix_group, lemma_suffix_group, lemma_table_size,
    row_base_log, size_limit,
};
use crate::sparse_prover::{ProverAcc, batch_send};
use crate::sparse_verifier::{VerifierAcc, batch_check, identity_mle};
use crate::speaker::{drawn, same_source, sent};
use crate::sumcheck::same_len;
use crate::sums::{lemma_pow2_mono, lemma_pow2_step, lemma_sum_eq, sum_to, two_pow};
use crate::util::{Proof, RandomOracle};
use crate::verify::unread;

verus! {

/// The vectors that a certificate speaks of.
struct ProverTables<'a> {
    witness: &'a ProgramWitness,
    polys: &'a SparsePolys,
    tp: &'a MlPoly,
}

impl<'a> ProverTables<'a> {
    spec fn vectors(&self) -> spec_fn(Tab) -> Seq<int> {
        |t: Tab| vector_of(*self.witness, *self.polys, *self.tp, t)
    }

    spec fn fits(&self, p: ProfileView) -> bool {
        &&& self.witness.shaped()
        &&& self.polys.supergroups.len() > 0
        &&& vectors_fit(self.vectors(), p)
    }

    /// The vector with the given name.
    fn poly(&self, t: Tab) -> (out: &MlPoly)
        requires
            self.witness.shaped(),
            self.polys.supergroups.len() > 0,
            tab_ok(t),
            t.committed(),
        ensures
            out@ == self.vectors()(t),
    {
        match t {
            Tab::Row => &self.polys.supergroups[0].row,
            Tab::Col => &self.polys.supergroups[0].col,
            Tab::Val => &self.polys.supergroups[0].val,
            Tab::Pow => &self.polys.supergroups[0].pow,
            Tab::BRow => &self.polys.b_pre.row,
            Tab::BCol => &self.polys.b_pre.col,
            Tab::BVal => &self.polys.b_pre.val,
            Tab::BPow => &self.polys.b_pre.pow,
            Tab::Tp => self.tp,
            _ => self.witness.poly(t),
        }
    }

    /// The values of a vector on the first `len` places.
    fn column(&self, t: Tab, len: usize) -> (out: Vec<Fr>)
        requires
            self.witness.shaped(),
            self.polys.supergroups.len() > 0,
            tab_ok(t),
            t.committed() ==> self.vectors()(t).len() <= len,
        ensures
            values(out@) == column_of(self.vectors(), t, len as int),
            out.len() == len,
    {
        let ghost want = column_of(self.vectors(), t, len as int);
        match t {
            Tab::One => {
                let out = filled(Fr::one(), len);
                assert(values(out@) =~= want);
                out
            },
            Tab::Identity => {
                let mut out: Vec<Fr> = Vec::new();
                for i in 0..len
                    invariant
                        out.len() == i,
                        forall|j: int| 0 <= j < i ==> (#[trigger] out[j])@ == j,
                {
                    out.push(Fr::from_usize(i));
                }
                assert(values(out@) =~= want);
                out
            },
            Tab::Ind(lo, hi) => {
                let mut out: Vec<Fr> = Vec::new();
                for i in 0..len
                    invariant
                        out.len() == i,
                        forall|j: int|
                            0 <= j < i ==> (#[trigger] out[j])@ == if lo <= j < hi {
                                1int
                            } else {
                                0
                            },
                {
                    out.push(if lo <= i && i < hi {
                        Fr::one()
                    } else {
                        Fr::zero()
                    });
                }
                assert(values(out@) =~= want);
                out
            },
            _ => {
                let v = self.poly(t).copy();
                assert(v@.len() == v.0.len());
                pad_to(v.0, len, Fr::zero())
            },
        }
    }

    /// The values of some vectors.
    fn columns(&self, tabs: &Vec<Tab>, log: usize, Ghost(p): Ghost<ProfileView>) -> (out: Vec<
        Vec<Fr>,
    >)
        requires
            self.fits(p),
            tabs_wf(p, log as int, tabs@),
            pow2(log as nat) <= usize::MAX,
        ensures
            tables(out@) == columns_of(self.vectors(), tabs@, pow2(log as nat) as int),
            same_len(tables(out@), pow2(log as nat) as int),
            out.len() == tabs.len(),
    {
        let len: usize = two_pow(log);
        let ghost f = self.vectors();
        let ghost want = columns_of(f, tabs@, len as int);
        let mut out: Vec<Vec<Fr>> = Vec::new();
        for k in 0..tabs.len()
            invariant
                len == pow2(log as nat),
                f == self.vectors(),
                self.fits(p),
                tabs_wf(p, log as int, tabs@),
                want == columns_of(f, tabs@, len as int),
                out.len() == k,
                forall|j: int| 0 <= j < k ==> values((#[trigger] out[j])@) == want[j],
                forall|j: int| 0 <= j < k ==> (#[trigger] out[j]).len() == len,
        {
            assert(tab_wf(p, log as int, tabs@[k as int]));
            out.push(self.column(tabs[k], len));
        }
        assert(tables(out@) =~= want);
        assert forall|t: int| 0 <= t < tables(out@).len() implies (#[trigger] tables(
            out@,
        )[t]).len() == len by {
            assert(tables(out@)[t] == values(out[t]@));
        }
        out
    }
}

/// Adds the openings of the vectors of a list that are committed to, at one point.
fn open_tabs(
    tables: &ProverTables<'_>,
    tabs: &Vec<Tab>,
    point: &Vec<Fr>,
    acc: &mut ProverAcc,
)
    requires
        tables.witness.shaped(),
        tables.polys.supergroups.len() > 0,
        forall|k: int| 0 <= k < tabs.len() ==> tab_ok(#[trigger] tabs[k]),
    ensures
        final(acc)@ == opened_at(
            old(acc)@,
            tables.vectors(),
            tabs@,
            values(point@),
            tabs.len() as int,
        ),
{
    let ghost a = acc@;
    let ghost f = tables.vectors();
    let ghost p = values(point@);
    for k in 0..tabs.len()
        invariant
            tables.witness.shaped(),
            tables.polys.supergroups.len() > 0,
            forall|k: int| 0 <= k < tabs.len() ==> tab_ok(#[trigger] tabs[k]),
            f == tables.vectors(),
            p == values(point@),
            acc@ == opened_at(a, f, tabs@, p, k as int),
    {
        assert(tab_ok(tabs[k as int]));
        if tabs[k].is_committed() {
            acc.push(tables.poly(tabs[k]).copy(), copied(point));
        }
    }
}

/// Proves a zero check.
fn check_prove(
    tables: &ProverTables<'_>,
    check: &ZeroCheck,
    chals: &Vec<Fr>,
    acc: &mut ProverAcc,
    proof: &mut Proof,
    ro: &mut RandomOracle,
    Ghost(p): Ghost<ProfileView>,
)
    requires
        tables.fits(p),
        check_wf(p, check@),
        chals.len() == NUM_CHALLENGES,
        old(ro)@.len() >= 2 * check.log_len,
    ensures
        (ProofState { s: sent(final(proof)@, final(ro)@), acc: final(acc)@, ok: true })
            == prove_check(
            tables.vectors(),
            check@,
            values(chals@),
            ProofState { s: sent(old(proof)@, old(ro)@), acc: old(acc)@, ok: true },
        ),
        final(ro)@ == old(ro)@.skip(2 * check.log_len),
        same_source(*final(ro), *old(ro)),
{
    reveal(prove_check);
    let ghost s = sent(proof@, ro@);
    let eq_point = ro.next_n_fields(check.log_len);
    assert(values(eq_point@).len() == eq_point.len());
    let columns = tables.columns(&check.tables, check.log_len, Ghost(p));
    assert(drawn(s, check.log_len as int).ch =~= ro@);
    let (point, _) = eq_sumcheck_prove(
        &eq_point,
        columns,
        check.degree,
        check.gate.copy(),
        chals,
        proof,
        ro,
    );
    assert(ro@ =~= old(ro)@.skip(2 * check.log_len));
    assert forall|k: int| 0 <= k < check.tables.len() implies tab_ok(
        #[trigger] check.tables[k],
    ) by {
        assert(tab_wf(p, check.log_len as int, check@.tables[k]));
    }
    open_tabs(tables, &check.tables, &point, acc);
}

/// The parts of a denominator joined by the powers of `beta`.
fn fingerprint_exec(comps: &Vec<Lin>, tabs: &Vec<Tab>, vals: &Vec<Fr>, beta: Fr) -> (out: Fr)
    requires
        tabs.len() == vals.len(),
        forall|k: int| 0 <= k < comps.len() ==> lin_covered((#[trigger] comps[k])@, tabs@),
    ensures
        out@ == fingerprint(
            lin_views(comps@),
            |t: Tab| values(vals@)[place(tabs@, t, 0)],
            beta@,
        ),
{
    let ghost cs = lin_views(comps@);
    let ghost f = |t: Tab| values(vals@)[place(tabs@, t, 0)];
    let ghost b = beta@;
    let mut acc = Fr::zero();
    let mut w = Fr::one();
    proof {
        lemma_pow0(b);
    }
    for i in 0..comps.len()
        invariant
            tabs.len() == vals.len(),
            forall|k: int| 0 <= k < comps.len() ==> lin_covered((#[trigger] comps[k])@, tabs@),
            cs == lin_views(comps@),
            f == (|t: Tab| values(vals@)[place(tabs@, t, 0)]),
            b == beta@,
            w@ == pow(b, i as nat),
            acc@ == sum_to(i as int, |i: int| pow(b, i as nat) * lin_value(cs[i], f)),
    {
        assert(lin_covered(comps[i as int]@, tabs@));
        assert(cs[i as int] == comps[i as int]@);
        acc = acc + w * comps[i].eval(tabs, vals);
        proof {
            reveal(pow);
            assert(pow(b, (i + 1) as nat) == b * pow(b, i as nat));
            assert(b * pow(b, i as nat) == pow(b, i as nat) * b) by (nonlinear_arith);
        }
        w = w * beta;
    }
    acc
}

/// An expression has the same value for values that agree on its vectors.
proof fn lemma_lin_value(l: LinView, f: spec_fn(Tab) -> int, g: spec_fn(Tab) -> int)
    requires
        forall|k: int| 0 <= k < l.terms.len() ==> f((#[trigger] l.terms[k]).1) == g(l.terms[k].1),
    ensures
        lin_value(l, f) == lin_value(l, g),
{
    let a = |k: int| l.terms[k].0 * f(l.terms[k].1);
    let b = |k: int| l.terms[k].0 * g(l.terms[k].1);
    assert forall|k: int| 0 <= k < l.terms.len() implies #[trigger] a(k) == b(k) by {
        let t = l.terms[k];
    }
    lemma_sum_eq(l.terms.len() as int, a, b);
}

/// The values of a list of vectors serve for an expression in them.
proof fn lemma_lin_row(l: LinView, tabs: Seq<Tab>, row: Seq<int>, f: spec_fn(Tab) -> int)
    requires
        lin_covered(l, tabs),
        row.len() == tabs.len(),
        forall|k: int| 0 <= k < tabs.len() ==> #[trigger] row[k] == f(tabs[k]),
    ensures
        lin_value(l, |t: Tab| row[place(tabs, t, 0)]) == lin_value(l, f),
{
    let g = |t: Tab| row[place(tabs, t, 0)];
    assert forall|k: int| 0 <= k < l.terms.len() implies g((#[trigger] l.terms[k]).1) == f(
        l.terms[k].1,
    ) by {
        let t = l.terms[k].1;
        assert(tabs.contains(t));
        lemma_place(tabs, t, 0);
    }
    lemma_lin_value(l, g, f);
}

proof fn lemma_fingerprint_row(
    cs: Seq<LinView>,
    tabs: Seq<Tab>,
    row: Seq<int>,
    f: spec_fn(Tab) -> int,
    beta: int,
)
    requires
        forall|k: int| 0 <= k < cs.len() ==> lin_covered(#[trigger] cs[k], tabs),
        row.len() == tabs.len(),
        forall|k: int| 0 <= k < tabs.len() ==> #[trigger] row[k] == f(tabs[k]),
    ensures
        fingerprint(cs, |t: Tab| row[place(tabs, t, 0)], beta) == fingerprint(cs, f, beta),
{
    let g = |t: Tab| row[place(tabs, t, 0)];
    let a = |i: int| pow(beta, i as nat) * lin_value(cs[i], g);
    let b = |i: int| pow(beta, i as nat) * lin_value(cs[i], f);
    assert forall|i: int| 0 <= i < cs.len() implies #[trigger] a(i) == b(i) by {
        assert(lin_covered(cs[i], tabs));
        lemma_lin_row(cs[i], tabs, row, f);
    }
    lemma_sum_eq(cs.len() as int, a, b);
}

/// The numerators and the denominators of a sum of fractions.
fn fractions(
    tables: &ProverTables<'_>,
    block: &Block,
    tabs: &Vec<Tab>,
    alpha: Fr,
    beta: Fr,
    Ghost(p): Ghost<ProfileView>,
) -> (out: (Vec<Fr>, Vec<Fr>))
    requires
        tables.fits(p),
        block_wf(p, block@),
        pow2(block.log_len as nat) <= usize::MAX,
        tabs@ == tabs_of(block@),
    ensures
        values(out.0@) == numerators(tables.vectors(), block@),
        values(out.1@) == denominators(tables.vectors(), block@, alpha@, beta@),
        out.0.len() == pow2(block.log_len as nat),
        out.1.len() == pow2(block.log_len as nat),
{
    let len: usize = two_pow(block.log_len);
    let ghost f = tables.vectors();
    let ghost b = block@;
    let ghost nums = numerators(f, b);
    let ghost dens = denominators(f, b, alpha@, beta@);
    proof {
        lemma_tabs_of(p, b);
    }
    let columns = tables.columns(tabs, block.log_len, Ghost(p));
    let ghost cols = columns_of(f, tabs@, len as int);
    let mut num: Vec<Fr> = Vec::new();
    let mut den: Vec<Fr> = Vec::new();
    for x in 0..len
        invariant
            len == pow2(block.log_len as nat),
            f == tables.vectors(),
            b == block@,
            nums == numerators(f, b),
            dens == denominators(f, b, alpha@, beta@),
            cols == columns_of(f, tabs@, len as int),
            columns.len() == tabs.len(),
            crate::field::tables(columns@) == cols,
            same_len(cols, len as int),
            lin_covered(b.num, tabs@),
            forall|i: int| 0 <= i < b.comps.len() ==> lin_covered(#[trigger] b.comps[i], tabs@),
            num.len() == x,
            den.len() == x,
            forall|j: int| 0 <= j < x ==> (#[trigger] num[j])@ == nums[j],
            forall|j: int| 0 <= j < x ==> (#[trigger] den[j])@ == dens[j],
    {
        let mut row: Vec<Fr> = Vec::new();
        for k in 0..tabs.len()
            invariant
                x < len,
                columns.len() == tabs.len(),
                crate::field::tables(columns@) == cols,
                same_len(cols, len as int),
                row.len() == k,
                forall|j: int| 0 <= j < k ==> (#[trigger] row[j])@ == cols[j][x as int],
        {
            assert(cols[k as int] == values(columns[k as int]@));
            assert(cols[k as int].len() == len);
            row.push(columns[k][x]);
        }
        let ghost rv = values(row@);
        let ghost look = |t: Tab| column_of(f, t, len as int)[x as int];
        proof {
            assert forall|k: int| 0 <= k < tabs.len() implies #[trigger] rv[k] == look(
                tabs@[k],
            ) by {
                assert(rv[k] == row[k]@);
                assert(cols[k] == column_of(f, tabs@[k], len as int));
            }
            lemma_lin_row(b.num, tabs@, rv, look);
            lemma_fingerprint_row(b.comps, tabs@, rv, look, beta@);
            assert forall|k: int| 0 <= k < block.comps.len() implies lin_covered(
                (#[trigger] block.comps[k])@,
                tabs@,
            ) by {
                assert(b.comps[k] == block.comps[k]@);
            }
        }
        num.push(block.num.eval(tabs, &row));
        den.push(alpha + fingerprint_exec(&block.comps, tabs, &row, beta));
        assert(num[x as int]@ == nums[x as int]);
        assert(den[x as int]@ == dens[x as int]);
    }
    assert(values(num@) =~= nums);
    assert(values(den@) =~= dens);
    (num, den)
}

/// The values at a point of the vectors of a list that are committed to.
fn committed_exec(
    tables: &ProverTables<'_>,
    tabs: &Vec<Tab>,
    point: &Vec<Fr>,
    Ghost(p): Ghost<ProfileView>,
) -> (out: Vec<Fr>)
    requires
        tables.fits(p),
        tabs_wf(p, point.len() as int, tabs@),
    ensures
        values(out@) == committed_values(
            tables.vectors(),
            tabs@,
            values(point@),
            tabs.len() as int,
        ),
{
    let ghost f = tables.vectors();
    let ghost x = values(point@);
    let mut out: Vec<Fr> = Vec::new();
    assert(values(out@) =~= Seq::<int>::empty());
    for k in 0..tabs.len()
        invariant
            tables.fits(p),
            tabs_wf(p, point.len() as int, tabs@),
            f == tables.vectors(),
            x == values(point@),
            values(out@) == committed_values(f, tabs@, x, k as int),
    {
        let t = tabs[k];
        assert(tab_wf(p, point.len() as int, tabs@[k as int]));
        if t.is_committed() {
            let ghost before = values(out@);
            let v = tables.poly(t).copy();
            assert(v@ == f(t));
            assert(v@.len() == v.0.len());
            out.push(v.eval(point.as_slice()));
            assert(values(out@) =~= before.push(mle(f(t), x)));
        }
    }
    out
}

/// Proves a sum of fractions: gives the sum, unless a denominator has no inverse.
fn block_prove(
    tables: &ProverTables<'_>,
    block: &Block,
    alpha: Fr,
    beta: Fr,
    acc: &mut ProverAcc,
    proof: &mut Proof,
    ro: &mut RandomOracle,
    Ghost(p): Ghost<ProfileView>,
) -> (out: Option<Fr>)
    requires
        tables.fits(p),
        block_wf(p, block@),
        old(ro)@.len() >= layer_draws(block.log_len as int, 0),
    ensures
        ({
            let (st, sum) = prove_block(
                tables.vectors(),
                block@,
                alpha@,
                beta@,
                ProofState { s: sent(old(proof)@, old(ro)@), acc: old(acc)@, ok: true },
            );
            match out {
                Some(x) => x@ == sum && st == (ProofState {
                    s: sent(final(proof)@, final(ro)@),
                    acc: final(acc)@,
                    ok: true,
                }) && final(ro)@ == old(ro)@.skip(layer_draws(block.log_len as int, 0)),
                None => !st.ok,
            }
        }),
        same_source(*final(ro), *old(ro)),
{
    reveal(prove_block);
    let tabs = block_tabs(block);
    let ghost f = tables.vectors();
    let ghost b = block@;
    proof {
        lemma_tabs_of(p, b);
    }
    let (num, den) = fractions(tables, block, &tabs, alpha, beta, Ghost(p));
    let ghost dens = denominators(f, b, alpha@, beta@);
    let fine = all_have_inverses(&den);
    proof {
        if fine {
            assert forall|i: int| 0 <= i < dens.len() implies invertible(#[trigger] dens[i]) by {
                assert(values(den@)[i] == den[i]@);
            }
        } else {
            let i = choose|i: int| 0 <= i < den.len() && !invertible((#[trigger] den[i])@);
            assert(dens[i] == den[i]@);
        }
    }
    if !fine {
        return None;
    }
    proof {
        lemma_leaf_log(block.log_len as nat);
    }
    let (sum, point, _, _) = frac_sum_prove(num, den, proof, ro);
    let vals = committed_exec(tables, &tabs, &point, Ghost(p));
    assert forall|k: int| 0 <= k < tabs.len() implies tab_ok(#[trigger] tabs[k]) by {
        assert(tab_wf(p, b.log_len, tabs@[k]));
    }
    open_tabs(tables, &tabs, &point, acc);
    proof.push_f(vals.as_slice());
    Some(sum)
}


proof fn lemma_layer_draws_pos(n: int, k: int)
    requires
        0 <= k,
    ensures
        layer_draws(n, k) >= 0,
    decreases n - k,
{
    if k < n {
        lemma_layer_draws_pos(n, k + 1);
    }
}

proof fn lemma_blocks_draws(bs: Seq<BlockView>, n: int, m: int)
    requires
        0 <= n <= m <= bs.len(),
    ensures
        0 <= blocks_draws(bs, n) <= blocks_draws(bs, m),
    decreases m,
{
    if m > 0 {
        lemma_layer_draws_pos(bs[m - 1].log_len, 0);
        if n < m {
            lemma_blocks_draws(bs, n, m - 1);
        } else {
            lemma_blocks_draws(bs, m - 1, m - 1);
        }
    }
}

proof fn lemma_checks_draws(xs: Seq<CheckView>, n: int, m: int)
    requires
        0 <= n <= m <= xs.len(),
        forall|k: int| 0 <= k < xs.len() ==> (#[trigger] xs[k]).log_len >= 0,
    ensures
        0 <= checks_draws(xs, n) <= checks_draws(xs, m),
    decreases m,
{
    if m > 0 {
        assert(xs[m - 1].log_len >= 0);
        if n < m {
            lemma_checks_draws(xs, n, m - 1);
        } else {
            lemma_checks_draws(xs, m - 1, m - 1);
        }
    }
}

proof fn lemma_equalities_draws(es: Seq<EqualityView>, n: int, m: int)
    requires
        0 <= n <= m <= es.len(),
    ensures
        0 <= equalities_draws(es, n) <= equalities_draws(es, m),
    decreases m,
{
    if m > 0 {
        let e = es[m - 1];
        lemma_blocks_draws(e.left, 0, e.left.len() as int);
        lemma_blocks_draws(e.right, 0, e.right.len() as int);
        if n < m {
            lemma_equalities_draws(es, n, m - 1);
        } else {
            lemma_equalities_draws(es, m - 1, m - 1);
        }
    }
}

/// What failed once stays failed.
proof fn lemma_blocks_ok(
    f: spec_fn(Tab) -> Seq<int>,
    bs: Seq<BlockView>,
    alpha: int,
    beta: int,
    st: ProofState,
    n: int,
    m: int,
)
    requires
        0 <= n <= m,
    ensures
        prove_blocks(f, bs, alpha, beta, st, m).0.ok ==> prove_blocks(
            f,
            bs,
            alpha,
            beta,
            st,
            n,
        ).0.ok,
    decreases m,
{
    if n < m {
        reveal(prove_block);
        lemma_blocks_ok(f, bs, alpha, beta, st, n, m - 1);
    }
}

proof fn lemma_equalities_ok(
    f: spec_fn(Tab) -> Seq<int>,
    es: Seq<EqualityView>,
    st: ProofState,
    n: int,
    m: int,
)
    requires
        0 <= n <= m,
    ensures
        prove_equalities(f, es, st, m).ok ==> prove_equalities(f, es, st, n).ok,
    decreases m,
{
    if n < m {
        reveal(prove_equality);
        let e = es[m - 1];
        let before = prove_equalities(f, es, st, m - 1);
        let a = before.s.ch[0];
        let b = before.s.ch[1];
        let st1 = ProofState { s: drawn(before.s, 2), ..before };
        let st2 = prove_blocks(f, e.left, a, b, st1, e.left.len() as int).0;
        lemma_blocks_ok(f, e.left, a, b, st1, 0, e.left.len() as int);
        lemma_blocks_ok(f, e.right, a, b, st2, 0, e.right.len() as int);
        lemma_equalities_ok(f, es, st, n, m - 1);
    }
}

/// Proves sums of fractions: gives the total, unless a denominator has no inverse.
fn blocks_prove(
    tables: &ProverTables<'_>,
    blocks: &Vec<Block>,
    alpha: Fr,
    beta: Fr,
    acc: &mut ProverAcc,
    proof: &mut Proof,
    ro: &mut RandomOracle,
    Ghost(p): Ghost<ProfileView>,
) -> (out: Option<Fr>)
    requires
        tables.fits(p),
        blocks_wf(p, block_views(blocks@)),
        old(ro)@.len() >= blocks_draws(block_views(blocks@), blocks.len() as int),
    ensures
        ({
            let (st, sum) = prove_blocks(
                tables.vectors(),
                block_views(blocks@),
                alpha@,
                beta@,
                ProofState { s: sent(old(proof)@, old(ro)@), acc: old(acc)@, ok: true },
                blocks.len() as int,
            );
            match out {
                Some(x) => x@ == sum && st == (ProofState {
                    s: sent(final(proof)@, final(ro)@),
                    acc: final(acc)@,
                    ok: true,
                }) && final(ro)@ == old(ro)@.skip(
                    blocks_draws(block_views(blocks@), blocks.len() as int),
                ),
                None => !st.ok,
            }
        }),
        same_source(*final(ro), *old(ro)),
{
    let ghost st = ProofState { s: sent(proof@, ro@), acc: acc@, ok: true };
    let ghost f = tables.vectors();
    let ghost bs = block_views(blocks@);
    let ghost all = ro@;
    let mut total = Fr::zero();
    assert(all.skip(0) =~= all);
    for k in 0..blocks.len()
        invariant
            tables.fits(p),
            f == tables.vectors(),
            bs == block_views(blocks@),
            blocks_wf(p, bs),
            all.len() >= blocks_draws(bs, blocks.len() as int),
            ro@ == all.skip(blocks_draws(bs, k as int)),
            same_source(*ro, *old(ro)),
            st == (ProofState { s: sent(old(proof)@, old(ro)@), acc: old(acc)@, ok: true }),
            (
                (ProofState { s: sent(proof@, ro@), acc: acc@, ok: true }),
                total@,
            ) == prove_blocks(f, bs, alpha@, beta@, st, k as int),
    {
        proof {
            lemma_blocks_draws(bs, k as int, k as int);
            lemma_blocks_draws(bs, k + 1, blocks.len() as int);
            lemma_layer_draws_pos(bs[k as int].log_len, 0);
            assert(block_wf(p, bs[k as int]));
            assert(bs[k as int] == blocks[k as int]@);
        }
        match block_prove(tables, &blocks[k], alpha, beta, acc, proof, ro, Ghost(p)) {
            Some(x) => {
                total = total + x;
                assert(ro@ =~= all.skip(blocks_draws(bs, k + 1)));
            },
            None => {
                proof {
                    lemma_blocks_ok(f, bs, alpha@, beta@, st, k + 1, blocks.len() as int);
                }
                return None;
            },
        }
    }
    Some(total)
}

/// Proves an equality: gives whether it went well.
fn equality_prove(
    tables: &ProverTables<'_>,
    equality: &Equality,
    acc: &mut ProverAcc,
    proof: &mut Proof,
    ro: &mut RandomOracle,
    Ghost(p): Ghost<ProfileView>,
) -> (out: bool)
    requires
        tables.fits(p),
        equality_wf(p, equality@),
        old(ro)@.len() >= equality_draws(equality@),
    ensures
        ({
            let st = prove_equality(
                tables.vectors(),
                equality@,
                ProofState { s: sent(old(proof)@, old(ro)@), acc: old(acc)@, ok: true },
            );
            if out {
                st == (ProofState {
                    s: sent(final(proof)@, final(ro)@),
                    acc: final(acc)@,
                    ok: true,
                }) && final(ro)@ == old(ro)@.skip(equality_draws(equality@))
            } else {
                !st.ok
            }
        }),
        same_source(*final(ro), *old(ro)),
{
    reveal(prove_equality);
    let ghost e = equality@;
    let ghost f = tables.vectors();
    let ghost all = ro@;
    let ghost s0 = sent(proof@, ro@);
    proof {
        lemma_blocks_draws(e.left, 0, e.left.len() as int);
        lemma_blocks_draws(e.right, 0, e.right.len() as int);
    }
    let alpha = ro.next_field();
    let beta = ro.next_field();
    assert(ro@ =~= all.skip(2));
    let ghost st1 = ProofState { s: sent(proof@, ro@), acc: acc@, ok: true };
    assert(st1.s == drawn(s0, 2));
    let left = match blocks_prove(
        tables,
        &equality.left,
        alpha,
        beta,
        acc,
        proof,
        ro,
        Ghost(p),
    ) {
        Some(x) => x,
        None => {
            proof {
                let st2 = prove_blocks(f, e.left, alpha@, beta@, st1, e.left.len() as int).0;
                lemma_blocks_ok(f, e.right, alpha@, beta@, st2, 0, e.right.len() as int);
            }
            return false;
        },
    };
    let right = match blocks_prove(
        tables,
        &equality.right,
        alpha,
        beta,
        acc,
        proof,
        ro,
        Ghost(p),
    ) {
        Some(x) => x,
        None => return false,
    };
    assert(ro@ =~= all.skip(equality_draws(e)));
    left == right
}

/// Proves the zero checks.
fn checks_prove(
    tables: &ProverTables<'_>,
    checks: &Vec<ZeroCheck>,
    chals: &Vec<Fr>,
    acc: &mut ProverAcc,
    proof: &mut Proof,
    ro: &mut RandomOracle,
    Ghost(p): Ghost<ProfileView>,
)
    requires
        tables.fits(p),
        forall|k: int| 0 <= k < checks.len() ==> check_wf(p, #[trigger] check_views(checks@)[k]),
        chals.len() == NUM_CHALLENGES,
        old(ro)@.len() >= checks_draws(check_views(checks@), checks.len() as int),
    ensures
        (ProofState { s: sent(final(proof)@, final(ro)@), acc: final(acc)@, ok: true })
            == prove_checks(
            tables.vectors(),
            check_views(checks@),
            values(chals@),
            ProofState { s: sent(old(proof)@, old(ro)@), acc: old(acc)@, ok: true },
            checks.len() as int,
        ),
        final(ro)@ == old(ro)@.skip(checks_draws(check_views(checks@), checks.len() as int)),
        same_source(*final(ro), *old(ro)),
{
    let ghost st = ProofState { s: sent(proof@, ro@), acc: acc@, ok: true };
    let ghost f = tables.vectors();
    let ghost xs = check_views(checks@);
    let ghost all = ro@;
    let ghost cv = values(chals@);
    assert(all.skip(0) =~= all);
    assert forall|k: int| 0 <= k < xs.len() implies (#[trigger] xs[k]).log_len >= 0 by {
        assert(check_wf(p, xs[k]));
    }
    for k in 0..checks.len()
        invariant
            tables.fits(p),
            f == tables.vectors(),
            xs == check_views(checks@),
            forall|k: int| 0 <= k < checks.len() ==> check_wf(p, #[trigger] xs[k]),
            forall|k: int| 0 <= k < xs.len() ==> (#[trigger] xs[k]).log_len >= 0,
            chals.len() == NUM_CHALLENGES,
            cv == values(chals@),
            all.len() >= checks_draws(xs, checks.len() as int),
            ro@ == all.skip(checks_draws(xs, k as int)),
            same_source(*ro, *old(ro)),
            (ProofState { s: sent(proof@, ro@), acc: acc@, ok: true }) == prove_checks(
                f,
                xs,
                cv,
                st,
                k as int,
            ),
    {
        proof {
            lemma_checks_draws(xs, k as int, k as int);
            lemma_checks_draws(xs, k + 1, checks.len() as int);
            assert(check_wf(p, xs[k as int]));
            assert(xs[k as int] == checks[k as int]@);
        }
        check_prove(tables, &checks[k], chals, acc, proof, ro, Ghost(p));
        assert(ro@ =~= all.skip(checks_draws(xs, k + 1)));
    }
}

/// Proves the equalities: gives whether all went well.
fn equalities_prove(
    tables: &ProverTables<'_>,
    equalities: &Vec<Equality>,
    acc: &mut ProverAcc,
    proof: &mut Proof,
    ro: &mut RandomOracle,
    Ghost(p): Ghost<ProfileView>,
) -> (out: bool)
    requires
        tables.fits(p),
        forall|k: int|
            0 <= k < equalities.len() ==> equality_wf(p, #[trigger] equality_views(equalities@)[k]),
        old(ro)@.len() >= equalities_draws(equality_views(equalities@), equalities.len() as int),
    ensures
        ({
            let st = prove_equalities(
                tables.vectors(),
                equality_views(equalities@),
                ProofState { s: sent(old(proof)@, old(ro)@), acc: old(acc)@, ok: true },
                equalities.len() as int,
            );
            if out {
                st == (ProofState {
                    s: sent(final(proof)@, final(ro)@),
                    acc: final(acc)@,
                    ok: true,
                })
            } else {
                !st.ok
            }
        }),
        same_source(*final(ro), *old(ro)),
{
    let ghost st = ProofState { s: sent(proof@, ro@), acc: acc@, ok: true };
    let ghost f = tables.vectors();
    let ghost es = equality_views(equalities@);
    let ghost all = ro@;
    assert(all.skip(0) =~= all);
    for k in 0..equalities.len()
        invariant
            tables.fits(p),
            f == tables.vectors(),
            es == equality_views(equalities@),
            forall|k: int| 0 <= k < equalities.len() ==> equality_wf(p, #[trigger] es[k]),
            all.len() >= equalities_draws(es, equalities.len() as int),
            ro@ == all.skip(equalities_draws(es, k as int)),
            same_source(*ro, *old(ro)),
            st == (ProofState { s: sent(old(proof)@, old(ro)@), acc: old(acc)@, ok: true }),
            (ProofState { s: sent(proof@, ro@), acc: acc@, ok: true }) == prove_equalities(
                f,
                es,
                st,
                k as int,
            ),
    {
        proof {
            let e = es[k as int];
            lemma_equalities_draws(es, k as int, k as int);
            lemma_equalities_draws(es, k + 1, equalities.len() as int);
            lemma_blocks_draws(e.left, 0, e.left.len() as int);
            lemma_blocks_draws(e.right, 0, e.right.len() as int);
            assert(equality_wf(p, es[k as int]));
            assert(es[k as int] == equalities[k as int]@);
        }
        if !equality_prove(tables, &equalities[k], acc, proof, ro, Ghost(p)) {
            proof {
                lemma_equalities_ok(f, es, st, k + 1, equalities.len() as int);
            }
            return false;
        }
        assert(ro@ =~= all.skip(equalities_draws(es, k + 1)));
    }
    true
}

/// A value of a vector at the first or the last vertex.
struct BoundaryClaim {
    tab: Tab,
    point: Vec<Fr>,
    value: Fr,
}

/// The values of the counters, and of the starts in the families, at the first and
/// the last vertex.
fn boundary_claims(profile: &RegistrationProfile, k: usize) -> (out: BoundaryClaim)
    requires
        profile_fits(profile@),
        k < num_boundaries(),
    ensures
        ({
            let b = boundary_of(profile@, k as int);
            &&& out.tab == b.tab
            &&& values(out.point@) == b.point
            &&& out.value@ == b.value
            &&& tab_ok(out.tab)
            &&& out.tab.committed()
        }),
{
    let ghost p = profile@;
    let nv: usize = profile.log_instr();
    let i: usize = k / 2;
    let last = k % 2 == 1;
    let point = filled(if last {
        Fr::one()
    } else {
        Fr::zero()
    }, nv);
    assert(values(point@) =~= boundary_of(p, k as int).point);
    if i < NUM_COUNTERS {
        let value = if !last {
            if i == 0 {
                Fr::from_usize(profile.weight_len + profile.input_len)
            } else if i == 1 {
                Fr::from_usize(profile.aux_start)
            } else {
                Fr::zero()
            }
        } else if i == 0 {
            Fr::from_usize(profile.aux_start)
        } else if i == 1 {
            Fr::from_usize(profile.z_len)
        } else if i == 2 {
            Fr::from_usize(profile.cons_line)
        } else {
            Fr::from_usize(profile.lu_line)
        };
        BoundaryClaim { tab: Tab::Ctr(i), point, value }
    } else {
        let f: usize = i - NUM_COUNTERS;
        assert(p.family_lens.len() == profile.family_lens.len());
        let value = if last {
            Fr::from_usize(profile.family_lens[f])
        } else {
            Fr::zero()
        };
        BoundaryClaim { tab: Tab::Base(f), point, value }
    }
}

/// What the verifier knows of the vectors.
struct VerifierTables<'a> {
    vk: &'a VerifierKey,
    commits: &'a ProgramCommits,
}

impl<'a> VerifierTables<'a> {
    spec fn ready(&self) -> bool {
        self.vk.complete() && self.commits.shaped()
    }

    spec fn exponents(&self) -> spec_fn(Tab) -> Seq<int> {
        |t: Tab| commit_at(self.vk@, *self.commits, t)
    }

    /// The commitment to the vector with the given name.
    fn commit(&self, t: Tab) -> (out: &MkzgCommit)
        requires
            self.ready(),
            tab_ok(t),
        ensures
            out@ == self.exponents()(t),
    {
        match t {
            Tab::Row => &self.vk.sparse_commits.supergroups[0].row,
            Tab::Col => &self.vk.sparse_commits.supergroups[0].col,
            Tab::Val => &self.vk.sparse_commits.supergroups[0].val,
            Tab::Pow => &self.vk.sparse_commits.supergroups[0].pow,
            Tab::BRow => &self.vk.sparse_commits.b_pre.row,
            Tab::BCol => &self.vk.sparse_commits.b_pre.col,
            Tab::BVal => &self.vk.sparse_commits.b_pre.val,
            Tab::BPow => &self.vk.sparse_commits.b_pre.pow,
            Tab::Tp => &self.vk.tp_commit,
            _ => self.commits.commit(t),
        }
    }
}

/// The value of a public vector at a point.
pub fn public_eval(t: Tab, point: &Vec<Fr>) -> (out: Fr)
    requires
        !t.committed(),
        t is Ind ==> pow2(point.len() as nat) <= usize::MAX,
    ensures
        out@ == public_at(t, values(point@)),
        (t matches Tab::Ind(lo, hi) ==> lo <= hi) ==> out@ == mle(
            public_column(t, pow2(point.len() as nat) as int),
            values(point@),
        ),
{
    assert(values(point@).len() == point.len());
    proof {
        if t matches Tab::Ind(lo, hi) ==> lo <= hi {
            law_public(t, values(point@));
        }
    }
    match t {
        Tab::Identity => identity_mle(point),
        Tab::Ind(lo, hi) => MlPoly::eval_ones_pref(point.as_slice(), hi)
            - MlPoly::eval_ones_pref(point.as_slice(), lo),
        _ => Fr::one(),
    }
}

/// Checks a zero check.
fn check_verify(
    tables: &VerifierTables<'_>,
    check: &ZeroCheck,
    chals: &Vec<Fr>,
    acc: &mut VerifierAcc,
    chan: &mut Channel,
    Ghost(p): Ghost<ProfileView>,
)
    requires
        tables.ready(),
        check_wf(p, check@),
        chals.len() == NUM_CHALLENGES,
        old(acc).even(),
    ensures
        (CheckState { st: final(chan)@, acc: final(acc)@ }) == verify_check(
            tables.exponents(),
            check@,
            values(chals@),
            CheckState { st: old(chan)@, acc: old(acc)@ },
        ),
        final(acc).even(),
        final(chan).same_oracle(old(chan)),
{
    reveal(verify_check);
    let ghost g = tables.exponents();
    let eq_point = chan.challenges(check.log_len);
    let (point, vals) = eq_sumcheck_verify(
        &eq_point,
        Fr::zero(),
        check.degree,
        check.tables.len(),
        &check.gate,
        chals,
        chan,
    );
    let ghost v = CheckState { st: chan@, acc: acc@ };
    let ghost tabs = check.tables@;
    let ghost pv = values(point@);
    let ghost vv = values(vals@);
    assert(vv.len() == vals.len());
    for k in 0..check.tables.len()
        invariant
            tables.ready(),
            g == tables.exponents(),
            tabs == check.tables@,
            tabs_wf(p, check.log_len as int, tabs),
            pv == values(point@),
            vv == values(vals@),
            vals.len() == check.tables.len(),
            point.len() == check.log_len,
            acc.even(),
            chan.same_oracle(old(chan)),
            (CheckState { st: chan@, acc: acc@ }) == settled(v, g, tabs, pv, vv, k as int),
    {
        let t = check.tables[k];
        assert(tab_wf(p, check.log_len as int, tabs[k as int]));
        if t.is_committed() {
            acc.push(tables.commit(t).copy(), copied(&point), vals[k]);
        } else {
            chan.require(vals[k] == public_eval(t, &point));
        }
    }
}

proof fn lemma_num_committed(tabs: Seq<Tab>, n: int, m: int)
    requires
        0 <= n <= m,
    ensures
        0 <= num_committed(tabs, n) <= num_committed(tabs, m) <= m,
        num_committed(tabs, m) - num_committed(tabs, n) <= m - n,
    decreases m,
{
    if m > 0 {
        if n < m {
            lemma_num_committed(tabs, n, m - 1);
        } else {
            lemma_num_committed(tabs, m - 1, m - 1);
        }
    }
}

fn num_committed_exec(tabs: &Vec<Tab>) -> (out: usize)
    ensures
        out == num_committed(tabs@, tabs.len() as int),
{
    let mut n: usize = 0;
    for k in 0..tabs.len()
        invariant
            n == num_committed(tabs@, k as int),
            n <= k,
    {
        if tabs[k].is_committed() {
            n = n + 1;
        }
    }
    n
}

/// Checks a sum of fractions: gives the sum.
fn block_verify(
    tables: &VerifierTables<'_>,
    block: &Block,
    alpha: Fr,
    beta: Fr,
    acc: &mut VerifierAcc,
    chan: &mut Channel,
    Ghost(p): Ghost<ProfileView>,
) -> (out: Fr)
    requires
        tables.ready(),
        block_wf(p, block@),
        old(acc).even(),
    ensures
        ((CheckState { st: final(chan)@, acc: final(acc)@ }), out@) == verify_block(
            tables.exponents(),
            block@,
            alpha@,
            beta@,
            CheckState { st: old(chan)@, acc: old(acc)@ },
        ),
        final(acc).even(),
        final(chan).same_oracle(old(chan)),
{
    reveal(verify_block);
    let ghost g = tables.exponents();
    let ghost b = block@;
    let tabs = block_tabs(block);
    let ghost tv = tabs@;
    proof {
        lemma_tabs_of(p, b);
    }
    let (sum, point, num_eval, den_eval) = frac_sum_verify(block.log_len, chan);
    let m: usize = num_committed_exec(&tabs);
    let opened = chan.read_fs(m);
    let ghost pv = values(point@);
    let ghost ov = values(opened@);
    let ghost want = read_values(tv, pv, ov);
    let ghost a0 = acc@;
    let ghost st2 = chan@;
    assert(ov.len() == opened.len());
    let mut vals: Vec<Fr> = Vec::new();
    let mut next: usize = 0;
    for k in 0..tabs.len()
        invariant
            tables.ready(),
            g == tables.exponents(),
            tv == tabs@,
            tabs_wf(p, block.log_len as int, tv),
            pv == values(point@),
            ov == values(opened@),
            m == num_committed(tv, tabs.len() as int),
            opened.len() == m,
            want == read_values(tv, pv, ov),
            point.len() == block.log_len,
            vals.len() == k,
            next == num_committed(tv, k as int),
            forall|j: int| 0 <= j < k ==> (#[trigger] vals[j])@ == want[j],
            acc.even(),
            acc@ == claimed_at(a0, g, tv, pv, want, k as int),
    {
        let t = tabs[k];
        proof {
            assert(tab_wf(p, block.log_len as int, tv[k as int]));
            lemma_num_committed(tv, k + 1, tabs.len() as int);
        }
        if t.is_committed() {
            let v = opened[next];
            assert(want[k as int] == ov[next as int]);
            next = next + 1;
            acc.push(tables.commit(t).copy(), copied(&point), v);
            vals.push(v);
        } else {
            vals.push(public_eval(t, &point));
        }
    }
    assert(values(vals@) =~= want);
    proof {
        assert forall|k: int| 0 <= k < block.comps.len() implies lin_covered(
            (#[trigger] block.comps[k])@,
            tabs@,
        ) by {
            assert(b.comps[k] == block.comps[k]@);
        }
    }
    let num = block.num.eval(&tabs, &vals);
    let den = alpha + fingerprint_exec(&block.comps, &tabs, &vals, beta);
    chan.require(num_eval == num && den_eval == den);
    sum
}

/// Checks sums of fractions: gives the total.
fn blocks_verify(
    tables: &VerifierTables<'_>,
    blocks: &Vec<Block>,
    alpha: Fr,
    beta: Fr,
    acc: &mut VerifierAcc,
    chan: &mut Channel,
    Ghost(p): Ghost<ProfileView>,
) -> (out: Fr)
    requires
        tables.ready(),
        blocks_wf(p, block_views(blocks@)),
        old(acc).even(),
    ensures
        ((CheckState { st: final(chan)@, acc: final(acc)@ }), out@) == verify_blocks(
            tables.exponents(),
            block_views(blocks@),
            alpha@,
            beta@,
            CheckState { st: old(chan)@, acc: old(acc)@ },
            blocks.len() as int,
        ),
        final(acc).even(),
        final(chan).same_oracle(old(chan)),
{
    let ghost v = CheckState { st: chan@, acc: acc@ };
    let ghost g = tables.exponents();
    let ghost bs = block_views(blocks@);
    let mut total = Fr::zero();
    for k in 0..blocks.len()
        invariant
            tables.ready(),
            g == tables.exponents(),
            bs == block_views(blocks@),
            blocks_wf(p, bs),
            acc.even(),
            chan.same_oracle(old(chan)),
            ((CheckState { st: chan@, acc: acc@ }), total@) == verify_blocks(
                g,
                bs,
                alpha@,
                beta@,
                v,
                k as int,
            ),
    {
        proof {
            assert(block_wf(p, bs[k as int]));
            assert(bs[k as int] == blocks[k as int]@);
        }
        total = total + block_verify(tables, &blocks[k], alpha, beta, acc, chan, Ghost(p));
    }
    total
}

/// Checks an equality.
fn equality_verify(
    tables: &VerifierTables<'_>,
    equality: &Equality,
    acc: &mut VerifierAcc,
    chan: &mut Channel,
    Ghost(p): Ghost<ProfileView>,
)
    requires
        tables.ready(),
        equality_wf(p, equality@),
        old(acc).even(),
    ensures
        (CheckState { st: final(chan)@, acc: final(acc)@ }) == verify_equality(
            tables.exponents(),
            equality@,
            CheckState { st: old(chan)@, acc: old(acc)@ },
        ),
        final(acc).even(),
        final(chan).same_oracle(old(chan)),
{
    reveal(verify_equality);
    let alpha = chan.challenge();
    let beta = chan.challenge();
    let left = blocks_verify(tables, &equality.left, alpha, beta, acc, chan, Ghost(p));
    let right = blocks_verify(tables, &equality.right, alpha, beta, acc, chan, Ghost(p));
    chan.require(left == right);
}

/// Checks all the rules and the openings that they need.
#[verifier::rlimit(40)]
fn rules_verify(
    tables: &VerifierTables<'_>,
    profile: &RegistrationProfile,
    chan: &mut Channel,
)
    requires
        tables.ready(),
        profile_fits(profile@),
    ensures
        final(chan)@ == verify_rules(
            tables.vk@.vp,
            tables.exponents(),
            profile@,
            old(chan)@,
        ),
        final(chan).same_oracle(old(chan)),
{
    reveal(verify_rules);
    let ghost p = profile@;
    let ghost g = tables.exponents();
    let rules = build_rules(profile);
    let ghost xs = zero_checks_of(p);
    let ghost es = equalities_of(p);
    proof {
        lemma_checks_wf(p);
        lemma_equalities_wf(p);
        assert(rules@ == rules_of(p));
        assert(check_views(rules.zero_checks@) == xs);
        assert(equality_views(rules.equalities@) == es);
        assert(xs.len() == rules.zero_checks.len());
        assert(es.len() == rules.equalities.len());
    }
    let mut acc = VerifierAcc::new();
    let chals = chan.challenges(NUM_CHALLENGES);
    let ghost cv = values(chals@);
    let ghost v = CheckState { st: chan@, acc: acc@ };
    for k in 0..rules.zero_checks.len()
        invariant
            tables.ready(),
            g == tables.exponents(),
            xs == check_views(rules.zero_checks@),
            forall|k: int| 0 <= k < xs.len() ==> check_wf(p, #[trigger] xs[k]),
            xs.len() == rules.zero_checks.len(),
            cv == values(chals@),
            chals.len() == NUM_CHALLENGES,
            acc.even(),
            chan.same_oracle(old(chan)),
            (CheckState { st: chan@, acc: acc@ }) == verify_checks(g, xs, cv, v, k as int),
    {
        proof {
            assert(check_wf(p, xs[k as int]));
            assert(xs[k as int] == rules.zero_checks[k as int]@);
        }
        check_verify(tables, &rules.zero_checks[k], &chals, &mut acc, chan, Ghost(p));
    }
    let ghost v1 = CheckState { st: chan@, acc: acc@ };
    for k in 0..rules.equalities.len()
        invariant
            tables.ready(),
            g == tables.exponents(),
            es == equality_views(rules.equalities@),
            forall|k: int| 0 <= k < es.len() ==> equality_wf(p, #[trigger] es[k]),
            es.len() == rules.equalities.len(),
            acc.even(),
            chan.same_oracle(old(chan)),
            (CheckState { st: chan@, acc: acc@ }) == verify_equalities(g, es, v1, k as int),
    {
        proof {
            assert(equality_wf(p, es[k as int]));
            assert(es[k as int] == rules.equalities[k as int]@);
        }
        equality_verify(tables, &rules.equalities[k], &mut acc, chan, Ghost(p));
    }
    let ghost v2 = CheckState { st: chan@, acc: acc@ };
    let count: usize = 2 * (NUM_COUNTERS + NUM_FAMILIES);
    for k in 0..count
        invariant
            count == num_boundaries(),
            tables.ready(),
            g == tables.exponents(),
            p == profile@,
            profile_fits(p),
            acc.even(),
            acc@ == claimed_boundaries(v2.acc, g, p, k as int),
    {
        let b = boundary_claims(profile, k);
        acc.push(tables.commit(b.tab).copy(), b.point, b.value);
    }
    let vp = tables.vk.kzg_vp.trim(profile.log_srs());
    batch_check(&vp, &acc, chan);
}

/// The sum of some lengths, if it is within the limit.
fn within_limit(lens: &Vec<usize>) -> (out: bool)
    ensures
        out == (cumulated(indices(lens@), lens.len() as int) <= size_limit()),
{
    let ghost lv = indices(lens@);
    let ghost n = lens.len() as int;
    let mut sum: usize = 0;
    for k in 0..lens.len()
        invariant
            lv == indices(lens@),
            n == lens.len(),
            sum == cumulated(lv, k as int),
            sum <= size_limit(),
    {
        proof {
            lemma_cumulated(lv, k + 1, n);
        }
        if lens[k] > usize::MAX / 16 - sum {
            return false;
        }
        sum = sum + lens[k];
    }
    true
}

/// Whether the sizes of a profile fit in memory.
fn profile_fits_exec(p: &RegistrationProfile) -> (out: bool)
    ensures
        out == profile_fits(p@),
{
    let limit: usize = usize::MAX / 16;
    proof {
        assert(p@.matrix_lens.len() == p.matrix_lens.len());
        assert(p@.family_lens.len() == p.family_lens.len());
    }
    p.matrix_lens.len() == 5 && p.family_lens.len() == NUM_FAMILIES && within_limit(
        &p.matrix_lens,
    ) && within_limit(&p.family_lens) && p.weight_len <= limit && p.input_len <= limit
        && p.instr_count < limit && p.cons_line <= limit && p.lu_line <= limit && p.entry_len
        <= limit && p.b_pre_len <= limit && p.x_len <= limit && p.row_flag <= 2 * limit
}

fn same_words(a: &Vec<usize>, b: &Vec<usize>) -> (out: bool)
    ensures
        out == (indices(a@) == indices(b@)),
{
    let ghost av = indices(a@);
    let ghost bv = indices(b@);
    if a.len() != b.len() {
        assert(av.len() != bv.len());
        return false;
    }
    for k in 0..a.len()
        invariant
            av == indices(a@),
            bv == indices(b@),
            a.len() == b.len(),
            forall|j: int| 0 <= j < k ==> (#[trigger] av[j]) == bv[j],
    {
        assert(av[k as int] == a[k as int]);
        assert(bv[k as int] == b[k as int]);
        if a[k] != b[k] {
            return false;
        }
    }
    assert(av =~= bv);
    true
}

/// What a registered program publishes beside the key of its circuit.
#[derive(Clone)]
pub struct RegistrationKey {
    pub profile: RegistrationProfile,
    pub commits: ProgramCommits,
}

/// Why there is no certificate.
#[derive(Debug, Clone, PartialEq, Eq)]
pub enum RegistrationError {
    /// The circuit is not the compilation of the program.
    NotCompiled(RuleViolation),
    /// The vectors of the program do not keep the rules under the challenges: a place
    /// is out of range, two sums of fractions differ, or a denominator has no inverse.
    NotProvable,
}

impl RegistrationError {
    /// The error in words.
    pub fn text(&self) -> (out: String)
        ensures
            out@ == (match *self {
                RegistrationError::NotCompiled(v) => violation_text(v@),
                RegistrationError::NotProvable => "the program does not keep the rules"@,
            }),
    {
        match self {
            RegistrationError::NotCompiled(v) => v.text(),
            RegistrationError::NotProvable => "the program does not keep the rules".to_owned(),
        }
    }
}

/// The places that the vectors of a program leave are within the range.
pub open spec fn slacks_fit(e: EncodingView, c: CircuitView) -> bool {
    let p = circuit_profile(e, c);
    slacks_in_range(e, c, p.x_len, pow2(p.log_range as nat) as int)
}

/// The profile of a program that can be registered fits in memory.
pub proof fn lemma_circuit_profile(e: EncodingView, c: CircuitView)
    requires
        registrable(e, c),
    ensures
        profile_fits(circuit_profile(e, c)),
        pow2(log_srs_of(circuit_profile(e, c)) as nat) <= 2 * size_limit(),
        pow2(log_srs_of(circuit_profile(e, c)) as nat) < usize::MAX,
        pow2(circuit_profile(e, c).log_range as nat) < usize::MAX,
{
    let p = circuit_profile(e, c);
    let q = e.opcode.len() as int;
    lemma_suffix_group(c, 1);
    lemma_prefix_group(c, 1);
    lemma_entry_rows(c);
    lemma_counters(e, 0, q);
    reveal_with_fuel(cumulated, 6);
    assert forall|i: int| 0 <= i < NUM_FAMILIES implies 0 <= #[trigger] p.family_lens[i] by {
        lemma_share_sum(e, i, q, q);
    }
    lemma_cumulated(p.family_lens, 0, NUM_FAMILIES as int);
    lemma_table_size(p.instr_count + 1);
    lemma_table_size(p.cons_line);
    lemma_table_size(p.lu_line);
    lemma_table_size(p.entry_len);
    lemma_table_size(p.b_pre_len);
    lemma_table_size(p.x_len);
    lemma_table_size(e.z_len + 2);
    lemma_pow2_step(row_base_log(c));
}

/// The number of values of a vector fits in memory.
proof fn lemma_tab_size(p: ProfileView, t: Tab)
    requires
        profile_fits(p),
        pow2(log_srs_of(p) as nat) <= 2 * size_limit(),
        t.committed(),
    ensures
        pow2(tab_log(p, t) as nat) <= 2 * size_limit(),
{
    lemma_table_size(p.instr_count + 1);
    lemma_table_size(p.cons_line);
    lemma_table_size(p.lu_line);
    lemma_table_size(p.entry_len);
    lemma_table_size(p.b_pre_len);
    lemma_table_size(p.x_len);
    lemma_pow2_mono(p.log_range as nat, log_srs_of(p) as nat);
}

/// The vectors of a key and of a program's witness are those of the program and its
/// circuit.
proof fn lemma_circuit_vectors(
    pk: ProvingKey,
    w: ProgramWitness,
    e: EncodingView,
    c: CircuitView,
)
    requires
        pk.consistent(),
        pk.circuit@ == c,
        registrable(e, c),
        w.holds(e, c, circuit_profile(e, c).x_len, circuit_profile(e, c).log_range),
    ensures
        key_vectors(pk, w) == circuit_vectors(e, c),
        vectors_fit(circuit_vectors(e, c), circuit_profile(e, c)),
{
    let p = circuit_profile(e, c);
    let f = circuit_vectors(e, c);
    let g = key_vectors(pk, w);
    lemma_circuit_profile(e, c);
    lemma_suffix_group(c, 1);
    lemma_prefix_group(c, 1);
    assert forall|t: Tab| #[trigger] g(t) == f(t) by {
        if t.committed() && tab_ok(t) && !of_circuit(t) {
            assert(of_program(t));
            assert(w.tab(t)@ == witness_of(e, c, p.x_len, p.log_range, t));
        }
    }
    assert(g =~= f);
    assert forall|t: Tab| t.committed() && tab_ok(t) implies 0 < (#[trigger] f(t)).len() <= pow2(
        tab_log(p, t) as nat,
    ) by {
        lemma_witness_len(e, c, p, t);
        lemma_pow2_mono(0, tab_log(p, t) as nat);
        lemma_pow2_step(0);
    }
}

/// Makes and checks certificates.
pub struct Registrar;

/// The commitments of a certificate, for a key of a verifier.
pub open spec fn key_exponents(vk: VerifierKey, c: ProgramCommits) -> spec_fn(Tab) -> Seq<int> {
    |t: Tab| commit_at(vk@, c, t)
}

/// The vectors of a certificate for a key of a prover.
pub open spec fn key_vectors(pk: ProvingKey, w: ProgramWitness) -> spec_fn(Tab) -> Seq<int> {
    |t: Tab| vector_of(w, pk.sparse_polys, pk.dense_public_polys.tp, t)
}

impl Registrar {
    /// Proves that the vectors of a program keep the rules. There is no proof if they
    /// do not: if two sums of fractions differ, or a denominator has no inverse.
    #[verifier::rlimit(40)]
    pub fn prove(
        pk: &ProvingKey,
        key: &RegistrationKey,
        witness: &ProgramWitness,
        ro: &mut RandomOracle,
    ) -> (out: Option<Proof>)
        requires
            profile_fits(key.profile@),
            witness.shaped(),
            pk.sparse_polys.supergroups.len() > 0,
            vectors_fit(key_vectors(*pk, *witness), key.profile@),
            pow2(log_srs_of(key.profile@) as nat) <= usize::MAX,
            certifiable(
                pk.kzg_pp@,
                key_vectors(*pk, *witness),
                key.profile@,
                old(ro)@,
            ),
        ensures
            out is Some <==> prove_rules(
                key_vectors(*pk, *witness),
                key.profile@,
                old(ro)@,
            ).ok,
            out is Some ==> sent(out->0@, final(ro)@) == certificate_of(
                pk.kzg_pp@,
                key_vectors(*pk, *witness),
                key.profile@,
                old(ro)@,
            ),
            same_source(*final(ro), *old(ro)),
    {
        reveal(prove_rules);
        let profile = &key.profile;
        let ghost p = profile@;
        let ghost all = ro@;
        let rules = build_rules(profile);
        let tables = ProverTables {
            witness,
            polys: &pk.sparse_polys,
            tp: &pk.dense_public_polys.tp,
        };
        let ghost f = key_vectors(*pk, *witness);
        let ghost xs = zero_checks_of(p);
        let ghost es = equalities_of(p);
        proof {
            assert(tables.vectors() =~= f);
            lemma_checks_wf(p);
            lemma_equalities_wf(p);
            assert(rules@ == rules_of(p));
            assert(check_views(rules.zero_checks@) == xs);
            assert(equality_views(rules.equalities@) == es);
            assert(xs.len() == rules.zero_checks.len());
            assert(es.len() == rules.equalities.len());
            assert forall|k: int| 0 <= k < xs.len() implies (#[trigger] xs[k]).log_len >= 0 by {
                assert(check_wf(p, xs[k]));
            }
            lemma_checks_draws(xs, 0, xs.len() as int);
            lemma_equalities_draws(es, 0, es.len() as int);
        }
        let mut proof = Proof::new();
        let mut acc = ProverAcc::new();
        let chals = ro.next_n_fields(NUM_CHALLENGES);
        let ghost st = ProofState { s: sent(proof@, ro@), acc: acc@, ok: true };
        assert(st.s == drawn(fresh(all), NUM_CHALLENGES as int));
        assert(values(chals@).len() == chals.len());
        checks_prove(&tables, &rules.zero_checks, &chals, &mut acc, &mut proof, ro, Ghost(p));
        let ghost st1 = prove_checks(f, xs, all.take(NUM_CHALLENGES as int), st, xs.len() as int);
        assert((ProofState { s: sent(proof@, ro@), acc: acc@, ok: true }) == st1);
        if !equalities_prove(&tables, &rules.equalities, &mut acc, &mut proof, ro, Ghost(p)) {
            return None;
        }
        let ghost st2 = prove_equalities(f, es, st1, es.len() as int);
        let count: usize = 2 * (NUM_COUNTERS + NUM_FAMILIES);
        for k in 0..count
            invariant
                count == num_boundaries(),
                profile == &key.profile,
                p == profile@,
                profile_fits(p),
                tables.witness.shaped(),
                tables.polys.supergroups.len() > 0,
                f == tables.vectors(),
                acc@ == opened_boundaries(st2.acc, f, p, k as int),
        {
            let b = boundary_claims(profile, k);
            acc.push(tables.poly(b.tab).copy(), b.point);
        }
        let srs = pk.kzg_pp.trim(profile.log_srs());
        batch_send(&srs, &acc, &mut proof, ro);
        Some(proof)
    }

    /// Registers a program: gives its key and the certificate that the circuit of the
    /// prover's key is its compilation. There is none if it is not.
    #[verifier::rlimit(40)]
    pub fn register(
        pk: &ProvingKey,
        vk: &VerifierKey,
        enc: &ProgramEncoding,
        ro: &mut RandomOracle,
    ) -> (out: Result<(RegistrationKey, Proof), RegistrationError>)
        requires
            encoding_fits(enc@),
            violation(enc@, pk.circuit@) is None ==> {
                &&& pk.consistent()
                &&& vk.complete()
                &&& key_counts(vk@, pk.circuit@)
                &&& registrable(enc@, pk.circuit@)
                &&& slacks_fit(enc@, pk.circuit@) ==> certifiable(
                    pk.kzg_pp@,
                    circuit_vectors(enc@, pk.circuit@),
                    circuit_profile(enc@, pk.circuit@),
                    old(ro)@,
                )
            },
        ensures
            ({
                let e = enc@;
                let c = pk.circuit@;
                let p = circuit_profile(e, c);
                let f = circuit_vectors(e, c);
                match violation(e, c) {
                    Some(v) => out is Err && out->Err_0 is NotCompiled && (out->Err_0->0)@ == v
                        && final(ro)@ == old(ro)@,
                    None => if slacks_fit(e, c) && prove_rules(f, p, old(ro)@).ok {
                        &&& out is Ok
                        &&& (out->Ok_0).0.profile@ == p
                        &&& (out->Ok_0).0.commits.shaped()
                        &&& forall|t: Tab|
                            of_program(t) ==> (#[trigger] (out->Ok_0).0.commits.tab(t))@
                                == commit_of(trimmed(pk.kzg_pp@, p), f(t))
                        &&& sent((out->Ok_0).1@, final(ro)@) == certificate_of(
                            pk.kzg_pp@,
                            f,
                            p,
                            old(ro)@,
                        )
                    } else {
                        out is Err && out->Err_0 is NotProvable
                    },
                }
            }),
            same_source(*final(ro), *old(ro)),
    {
        let ghost e = enc@;
        let ghost c = pk.circuit@;
        let ghost p = circuit_profile(e, c);
        let ghost f = circuit_vectors(e, c);
        match check_compilation(enc, &pk.circuit) {
            Ok(_) => {},
            Err(v) => {
                return Err(RegistrationError::NotCompiled(v));
            },
        }
        proof {
            lemma_suffix_group(c, 1);
            lemma_circuit_profile(e, c);
        }
        let profile = RegistrationProfile::new(vk, enc);
        let witness = match ProgramWitness::build(enc, &pk.circuit, &profile) {
            Some(w) => w,
            None => {
                return Err(RegistrationError::NotProvable);
            },
        };
        proof {
            lemma_circuit_vectors(*pk, witness, e, c);
        }
        let srs = pk.kzg_pp.trim(profile.log_srs());
        proof {
            lemma_pow2_mono(0, log_srs_of(p) as nat);
            lemma_pow2_step(0);
            assert(srs@.len() > 0);
            assert forall|t: Tab| of_program(t) implies (#[trigger] witness.tab(t))@.len()
                + srs@.len() <= usize::MAX by {
                lemma_witness_len(e, c, p, t);
                lemma_tab_size(p, t);
                assert(witness.tab(t)@ == witness_of(e, c, p.x_len, p.log_range, t));
            }
        }
        let commits = witness.commit(&srs);
        proof {
            assert forall|t: Tab| of_program(t) implies (#[trigger] commits.tab(t))@ == commit_of(
                trimmed(pk.kzg_pp@, p),
                f(t),
            ) by {
                assert(witness.tab(t)@ == witness_of(e, c, p.x_len, p.log_range, t));
            }
        }
        let key = RegistrationKey { profile, commits };
        match Self::prove(pk, &key, &witness, ro) {
            Some(proof) => Ok((key, proof)),
            None => Err(RegistrationError::NotProvable),
        }
    }

    /// Whether a certificate is right, with the challenges from the first one on: its
    /// profile fits the key, and what it sends keeps the rules.
    pub fn verify(
        vk: &VerifierKey,
        key: &RegistrationKey,
        proof: Proof,
        ro: &mut RandomOracle,
    ) -> (out: bool)
        requires
            vk.complete(),
        ensures
            ({
                let p = key.profile@;
                let st = verify_rules(
                    vk@.vp,
                    key_exponents(*vk, key.commits),
                    p,
                    unread(proof@.u, proof@.f, proof@.g, old(ro).all()),
                );
                if profile_matches(p, vk@) && key.commits.shaped() && p.log_range
                    <= proof@.f.len() {
                    out == st.ok && final(ro)@ == st.ch
                } else {
                    !out && final(ro)@ == old(ro).all()
                }
            }),
            final(ro).all() == old(ro).all(),
            final(ro).all_ints() == old(ro).all_ints(),
            final(ro).ints() == old(ro).all_ints(),
    {
        ro.restart();
        let p = &key.profile;
        let sg = &vk.sparse_commits.supergroups[0];
        let fine = profile_fits_exec(p) && key.commits.is_shaped() && p.log_range
            <= proof.remaining_f() && p.weight_len == vk.weight_len && same_words(
            &p.matrix_lens,
            &sg.matrix_lens,
        ) && p.entry_len == sg.len && p.b_pre_len == vk.sparse_commits.b_pre.len;
        if !fine {
            return false;
        }
        let tables = VerifierTables { vk, commits: &key.commits };
        let mut inner = RandomOracle::new(Vec::new(), Vec::new());
        core::mem::swap(&mut inner, ro);
        let mut chan = Channel { proof, ro: inner, ok: true };
        assert(tables.exponents() =~= key_exponents(*vk, key.commits));
        rules_verify(&tables, p, &mut chan);
        core::mem::swap(&mut chan.ro, ro);
        chan.ok
    }
}

} // verus!
