//! Multilinear polynomial commitments from pairings.
//!
//! A polynomial is cut into chunks, and each chunk is committed to in the monomial
//! basis. The first variables of a point address the place in a chunk, the others
//! the chunk. A chunk is opened at `x / (1 - x)` in the monomial basis, which up to
//! the factor `1 - x` per variable is its multilinear value at `x`.
use vstd::prelude::*;
use vstd::arithmetic::power::*;
use vstd::arithmetic::power2::*;
use crate::channel::{Channel, State, challenge, require};
use crate::field::{
    Fr, cong, copied, filled, inverse_of, invertible, lemma_invertible_mul, lemma_invertible_one,
    tables, values,
};
use crate::group::{G1, G2, inner_product, pairings_agree, points, points2};
use crate::poly::{
    MlPoly, at, eq_at, eq_points, fold, fold_all, lemma_prod_at_last, min, mle, prod_at,
};
use crate::sumcheck::{
    Gate, entry, gate_fits, gate_value, lemma_log2_ceil, log2_ceil, log2_ceil_exec, messages,
    prove_rounds, values_at,
};
use crate::sums::{lemma_pow2_mono, lemma_pow2_step, lemma_sum_eq, product_to, sum_to, two_pow};
use crate::units::law_word_invertible;
use crate::util::{Proof, RandomOracle};

verus! {

/// The logarithm of the usual chunk size.
pub const LOG_CHUNK_SIZE: usize = 10;

/// The commitment scheme.
pub struct Mkzg;

/// A commitment: a point for each chunk.
#[derive(Clone)]
pub struct MkzgCommit(pub Vec<G1>);

impl View for MkzgCommit {
    type V = Seq<int>;

    open spec fn view(&self) -> Seq<int> {
        points(self.0@)
    }
}

impl MkzgCommit {
    /// A copy.
    pub fn copy(&self) -> (out: MkzgCommit)
        ensures
            out.0@ == self.0@,
    {
        MkzgCommit(copied_points(&self.0))
    }
}

/// An opening of one chunk.
#[derive(Clone)]
pub struct MkzgProof(pub Vec<G1>);

impl View for MkzgProof {
    type V = Seq<int>;

    open spec fn view(&self) -> Seq<int> {
        points(self.0@)
    }
}

/// The messages of the sumcheck that joins several openings into one.
pub struct SumcheckProof(pub Vec<Fr>);

impl View for SumcheckProof {
    type V = Seq<int>;

    open spec fn view(&self) -> Seq<int> {
        values(self.0@)
    }
}

/// A copy of a vector of points.
pub fn copied_points(v: &Vec<G1>) -> (out: Vec<G1>)
    ensures
        out@ == v@,
{
    let mut out: Vec<G1> = Vec::new();
    for i in 0..v.len()
        invariant
            out@ == v@.take(i as int),
    {
        out.push(v[i]);
        assert(v@.take(i + 1) == v@.take(i as int).push(v[i as int]));
    }
    assert(v@.take(v.len() as int) == v@);
    out
}

/// A copy of a vector of points of the second group.
pub fn copied_points2(v: &Vec<G2>) -> (out: Vec<G2>)
    ensures
        out@ == v@,
{
    let mut out: Vec<G2> = Vec::new();
    for i in 0..v.len()
        invariant
            out@ == v@.take(i as int),
    {
        out.push(v[i]);
        assert(v@.take(i + 1) == v@.take(i as int).push(v[i as int]));
    }
    assert(v@.take(v.len() as int) == v@);
    out
}

/// The exponents of the verifier's parameters.
pub ghost struct VerParams {
    pub g: int,
    pub h: int,
    pub params: Seq<int>,
}

/// What the verifier needs: two bases, and the second one times each secret.
#[derive(Clone)]
pub struct MkzgVerParams {
    pub g: G1,
    pub h: G2,
    params: Vec<G2>,
}

impl View for MkzgVerParams {
    type V = VerParams;

    closed spec fn view(&self) -> VerParams {
        VerParams { g: self.g@, h: self.h@, params: points2(self.params@) }
    }
}

impl MkzgVerParams {
    /// The parameters for chunks of at most two to the power of `log_len`.
    pub fn trim(&self, log_len: usize) -> (out: MkzgVerParams)
        ensures
            out@ == (VerParams {
                params: self@.params.take(min(log_len as int, self@.params.len() as int)),
                ..self@
            }),
    {
        let mut params = copied_points2(&self.params);
        params.truncate(log_len);
        let out = MkzgVerParams { g: self.g, h: self.h, params };
        assert(out@.params =~= self@.params.take(min(log_len as int, self@.params.len() as int)));
        out
    }

    /// The logarithm of the chunk size.
    pub fn log_len(&self) -> (out: usize)
        ensures
            out == self@.params.len(),
    {
        self.params.len()
    }

    /// A copy.
    pub fn copy(&self) -> (out: MkzgVerParams)
        ensures
            out@ == self@,
    {
        MkzgVerParams { g: self.g, h: self.h, params: copied_points2(&self.params) }
    }
}

/// What the prover needs: the first base times each monomial in the secrets.
#[derive(Clone)]
pub struct MkzgProveParams(Vec<G1>);

impl View for MkzgProveParams {
    type V = Seq<int>;

    closed spec fn view(&self) -> Seq<int> {
        points(self.0@)
    }
}

impl MkzgProveParams {
    /// The parameters for chunks of at most two to the power of `log_len`.
    pub fn trim(&self, log_len: usize) -> (out: MkzgProveParams)
        requires
            pow2(log_len as nat) <= usize::MAX,
        ensures
            out@ == self@.take(min(pow2(log_len as nat) as int, self@.len() as int)),
    {
        let mut params = copied_points(&self.0);
        params.truncate(two_pow(log_len));
        let out = MkzgProveParams(params);
        assert(out@ =~= self@.take(min(pow2(log_len as nat) as int, self@.len() as int)));
        out
    }

    /// The chunk size.
    pub fn len(&self) -> (out: usize)
        ensures
            out == self@.len(),
    {
        self.0.len()
    }

    /// A copy.
    pub fn copy(&self) -> (out: MkzgProveParams)
        ensures
            out@ == self@,
    {
        MkzgProveParams(copied_points(&self.0))
    }
}

/// Ones.
pub open spec fn ones(n: nat) -> Seq<int> {
    Seq::new(n, |i: int| 1int)
}

/// The product of the secrets whose bits are set in `i`.
pub open spec fn monomial(tau: Seq<int>, i: int) -> int {
    prod_at(ones(tau.len()), tau, i)
}

/// The exponents of the prover's parameters, for a base and secrets.
pub open spec fn srs_of(g: int, tau: Seq<int>) -> Seq<int> {
    Seq::new(pow2(tau.len()), |i: int| g * monomial(tau, i))
}

/// The exponents of the verifier's parameters, for the bases and secrets.
pub open spec fn ver_params_of(g: int, h: int, tau: Seq<int>) -> VerParams {
    VerParams { g, h, params: tau.map_values(|t: int| h * t) }
}

/// The logarithm of a power of two.
pub open spec fn log_of(n: int) -> nat
    decreases n,
{
    if n <= 1 {
        0
    } else {
        1 + log_of(n / 2)
    }
}

/// The chunk size is a power of two.
pub open spec fn chunked(srs: Seq<int>) -> bool {
    srs.len() == pow2(log_of(srs.len() as int))
}

/// The logarithm of a power of two is its exponent.
pub proof fn lemma_log_of(k: nat)
    ensures
        log_of(pow2(k) as int) == k,
    decreases k,
{
    lemma_pow2_step(0);
    if k > 0 {
        lemma_pow2_step((k - 1) as nat);
        lemma_log_of((k - 1) as nat);
    }
}

/// The number of chunks of `len` values.
pub open spec fn num_chunks(len: int, chunk: int) -> int {
    (len + chunk - 1) / chunk
}

/// The exponents of the commitment to a polynomial.
pub open spec fn commit_of(srs: Seq<int>, f: Seq<int>) -> Seq<int> {
    Seq::new(
        num_chunks(f.len() as int, srs.len() as int) as nat,
        |c: int| sum_to(srs.len() as int, |j: int| srs[j] * at(f, c * srs.len() + j)),
    )
}

/// The chunks that are left when the first chunk variable is set to `r`.
pub open spec fn fold_chunks(f: Seq<int>, chunk: int, r: int) -> Seq<int> {
    Seq::new(
        ((num_chunks(f.len() as int, chunk) + 1) / 2 * chunk) as nat,
        |t: int|
            at(f, 2 * (t / chunk) * chunk + t % chunk) + (at(
                f,
                (2 * (t / chunk) + 1) * chunk + t % chunk,
            ) - at(f, 2 * (t / chunk) * chunk + t % chunk)) * r,
    )
}

/// The chunks that are left when the first chunk variables are set to `p`.
pub open spec fn fold_chunks_all(f: Seq<int>, chunk: int, p: Seq<int>) -> Seq<int>
    decreases p.len(),
{
    if p.len() == 0 {
        f
    } else {
        fold_chunks_all(fold_chunks(f, chunk, p[0]), chunk, p.drop_first())
    }
}

/// Where the monomial form is opened for the multilinear coordinate `x`.
pub open spec fn transform(x: int) -> int {
    x * inverse_of(1 - x)
}

/// The factor between the monomial and the multilinear value.
pub open spec fn scale(p: Seq<int>) -> int {
    product_to(p.len() as int, |i: int| 1 - p[i])
}

/// The entries with even indices.
pub open spec fn evens(f: Seq<int>) -> Seq<int> {
    Seq::new((f.len() / 2) as nat, |i: int| f[2 * i])
}

/// The entries with odd indices.
pub open spec fn odds(f: Seq<int>) -> Seq<int> {
    Seq::new((f.len() / 2) as nat, |i: int| f[2 * i + 1])
}

/// The monomial coefficients that are left when the first variable is set to `p`.
pub open spec fn fold_monomial(f: Seq<int>, p: int) -> Seq<int> {
    Seq::new((f.len() / 2) as nat, |i: int| f[2 * i] + f[2 * i + 1] * p)
}

/// The exponents of an opening at the monomial point `p`, and the value there.
pub open spec fn open_monomial(bases: Seq<int>, f: Seq<int>, p: Seq<int>) -> (Seq<int>, int)
    decreases p.len(),
{
    if p.len() == 0 {
        (Seq::empty(), f[0])
    } else {
        let (rest, value) = open_monomial(evens(bases), fold_monomial(f, p[0]), p.drop_first());
        (seq![inner_product(evens(bases), odds(f))] + rest, value)
    }
}

/// The first `n` entries, zeros past the end.
pub open spec fn resized(f: Seq<int>, n: int) -> Seq<int> {
    Seq::new(n as nat, |i: int| at(f, i))
}

/// A point with zeros up to `n` coordinates, if it has fewer.
pub open spec fn lengthened(p: Seq<int>, n: int) -> Seq<int> {
    if p.len() >= n {
        p
    } else {
        resized(p, n)
    }
}

/// The exponents of an opening at `point`, and the value there. A point with fewer
/// coordinates than a chunk has variables counts as one with zeros after them.
pub open spec fn open_of(srs: Seq<int>, f: Seq<int>, point: Seq<int>) -> (Seq<int>, int) {
    let log = log_of(srs.len() as int);
    let p = lengthened(point, log as int);
    let kzg_point = p.take(log as int);
    let chunk = resized(fold_chunks_all(f, srs.len() as int, p.skip(log as int)), srs.len() as int);
    let (proof, value) = open_monomial(srs, chunk, kzg_point.map_values(|x: int| transform(x)));
    (proof, value * scale(kzg_point))
}

/// A point that the chunk variables of can be transformed.
pub open spec fn openable(log: nat, point: Seq<int>) -> bool {
    forall|i: int| 0 <= i < log ==> invertible(1 - #[trigger] at(point, i))
}

/// The verdict on an opening. A point with fewer coordinates than a chunk has
/// variables counts as one with zeros after them.
pub open spec fn verify_of(
    vp: VerParams,
    point: Seq<int>,
    comm: Seq<int>,
    value: int,
    proof: Seq<int>,
) -> bool {
    let k = vp.params.len();
    let p = lengthened(point, k as int);
    &&& openable(k, point)
    &&& comm.len() > 0
    &&& proof.len() == k
    &&& cong(
        sum_to(k as int, |i: int| proof[i] * (vp.params[i] - vp.h * transform(p[i]))) + vp.g * (
        vp.h * (value * inverse_of(scale(p.take(k as int))))),
        fold_all(comm, p.skip(k as int))[0] * vp.h,
    )
}

/// The powers of `r` from the highest, for `k` claims.
pub open spec fn powers(r: int, k: int) -> Seq<int> {
    Seq::new(k as nat, |i: int| pow(r, (k - 1 - i) as nat))
}

/// The sum of products of a polynomial and an `eq_at`, weighted by the coins.
pub open spec fn batch_gate(k: int, n: int) -> Gate
    decreases k,
{
    if k <= 0 {
        Gate::Constant(0)
    } else {
        Gate::Add(
            Box::new(batch_gate(k - 1, n)),
            Box::new(
                Gate::Mul(
                    Box::new(Gate::Coin((k - 1) as usize)),
                    Box::new(
                        Gate::Mul(
                            Box::new(Gate::Var((k - 1) as usize)),
                            Box::new(Gate::Var((n + k - 1) as usize)),
                        ),
                    ),
                ),
            ),
        )
    }
}

/// The number of variables that all the claims together need.
pub open spec fn batch_vars(polys: Seq<Seq<int>>, pts: Seq<Seq<int>>, k: int) -> int
    decreases k,
{
    if k <= 0 {
        0
    } else {
        let before = batch_vars(polys, pts, k - 1);
        let a = log2_ceil(polys[k - 1].len() as int) as int;
        let b = pts[k - 1].len() as int;
        let c = if a >= b {
            a
        } else {
            b
        };
        if before >= c {
            before
        } else {
            c
        }
    }
}

/// The greatest length.
pub open spec fn max_len(v: Seq<Seq<int>>, k: int) -> int
    decreases k,
{
    if k <= 0 {
        0
    } else if max_len(v, k - 1) >= v[k - 1].len() {
        max_len(v, k - 1)
    } else {
        v[k - 1].len() as int
    }
}

/// The tables of the joint sumcheck: the polynomials, then the `eq_at` of their
/// points.
pub open spec fn batch_tables(polys: Seq<Seq<int>>, pts: Seq<Seq<int>>, nv: int) -> Seq<Seq<int>> {
    polys.map_values(|f: Seq<int>| resized(f, pow2(nv as nat) as int)) + pts.map_values(
        |p: Seq<int>| Seq::new(pow2(nv as nat), |i: int| eq_at(resized(p, nv), i)),
    )
}

/// The weights with which the polynomials are joined at the challenge point.
pub open spec fn batch_weights(pts: Seq<Seq<int>>, nv: int, r: int, rp: Seq<int>) -> Seq<int> {
    Seq::new(
        pts.len(),
        |i: int|
            powers(r, pts.len() as int)[i] * mle(
                Seq::new(pow2(nv as nat), |j: int| eq_at(resized(pts[i], nv), j)),
                rp,
            ),
    )
}

/// The weighted sum of the polynomials.
pub open spec fn combine(polys: Seq<Seq<int>>, w: Seq<int>) -> Seq<int> {
    Seq::new(
        max_len(polys, polys.len() as int) as nat,
        |j: int| sum_to(polys.len() as int, |i: int| w[i] * at(polys[i], j)),
    )
}

/// The exponents of a joint opening and the messages of its sumcheck, for the
/// challenges `ch`.
pub open spec fn batch_open_of(
    srs: Seq<int>,
    polys: Seq<Seq<int>>,
    pts: Seq<Seq<int>>,
    ch: Seq<int>,
) -> (Seq<int>, Seq<int>) {
    let k = polys.len() as int;
    let nv = batch_vars(polys, pts, k);
    let r = ch[0];
    let rp = ch.subrange(1, 1 + nv);
    let w = batch_weights(pts, nv, r, rp);
    (
        open_of(srs, combine(polys, w), rp).0,
        messages(
            batch_gate(k, k),
            powers(r, k),
            batch_tables(polys, pts, nv),
            pow2(nv as nat) as int,
            2,
            rp,
        ),
    )
}

/// The claim of a joint opening.
pub open spec fn horner(v: Seq<int>, r: int) -> int
    decreases v.len(),
{
    if v.len() == 0 {
        0
    } else {
        horner(v.drop_last(), r) * r + v.last()
    }
}

/// The value at `c` of the parabola through the three values at zero, one and two.
pub open spec fn parabola(s0: int, s1: int, s2: int, c: int) -> int {
    let half = inverse_of(2);
    let three_half = half * 3;
    s0 + c * (-three_half * s0 + s1 + s1 - half * s2) + c * c * (half * s0 - s1 + half * s2)
}

/// The rounds of the joint sumcheck on messages `sc` from message `i` on: gives
/// the challenges, the last claim and the state.
pub open spec fn batch_rounds(sc: Seq<int>, i: int, nv: int, y: int, st: State) -> (
    Seq<int>,
    int,
    State,
)
    decreases nv - i,
{
    if i >= nv {
        (Seq::empty(), y, st)
    } else {
        let s0 = at(sc, 3 * i);
        let s1 = at(sc, 3 * i + 1);
        let s2 = at(sc, 3 * i + 2);
        let st1 = require(st, cong(s0 + s1, y));
        let (st2, c) = challenge(st1);
        let (p, last, end) = batch_rounds(sc, i + 1, nv, parabola(s0, s1, s2, c), st2);
        (seq![c] + p, last, end)
    }
}

/// The weighted sum of the commitments, chunk by chunk.
pub open spec fn combine_commits(comms: Seq<Seq<int>>, w: Seq<int>) -> Seq<int> {
    Seq::new(
        max_len(comms, comms.len() as int) as nat,
        |c: int| sum_to(comms.len() as int, |i: int| at(comms[i], c) * w[i]),
    )
}

/// The weights that the verifier works out.
pub open spec fn verifier_weights(pts: Seq<Seq<int>>, nv: int, r: int, rp: Seq<int>) -> Seq<int> {
    Seq::new(
        pts.len(),
        |i: int|
            powers(r, pts.len() as int)[i] * eq_points(
                resized(pts[i], nv),
                rp,
                min(nv, rp.len() as int),
            ),
    )
}

/// The state after a joint opening was checked.
pub open spec fn batch_verify_of(
    vp: VerParams,
    pts: Seq<Seq<int>>,
    comms: Seq<Seq<int>>,
    vals: Seq<int>,
    proof: Seq<int>,
    sc: Seq<int>,
    st: State,
) -> State {
    let k = pts.len() as int;
    let nv = if k == 0 {
        1
    } else {
        max_len(pts, k)
    };
    let (st1, r) = challenge(st);
    let st2 = require(st1, sc.len() >= 3 * nv);
    let (rp, y, st3) = batch_rounds(sc, 0, nv, horner(vals, r), st2);
    let comm = combine_commits(comms, verifier_weights(pts, nv, r, rp));
    require(st3, verify_of(vp, rp, comm, y, proof))
}

fn fold_points(v: &Vec<G1>, r: Fr) -> (out: Vec<G1>)
    ensures
        points(out@) == fold(points(v@), r@),
{
    let one = Fr::one();
    let len: usize = v.len();
    let half: usize = len / 2 + len % 2;
    let mut out: Vec<G1> = Vec::new();
    let ghost f = points(v@);
    for i in 0..half
        invariant
            half == (len + 1) / 2,
            len == v.len(),
            f == points(v@),
            one@ == 1,
            out.len() == i,
            forall|j: int| 0 <= j < i ==> (#[trigger] out[j])@ == fold(f, r@)[j],
    {
        if i * 2 + 1 < len {
            out.push(v[i * 2].plus(v[i * 2 + 1].minus(v[i * 2]).times(r)));
        } else {
            out.push(v[i * 2].times(one - r));
            proof {
                let y = f[2 * i];
                assert(y * (1 - r@) == y + (0 - y) * r@) by (nonlinear_arith);
            }
        }
    }
    assert(points(out@) =~= fold(f, r@));
    out
}

fn fold_chunks_exec(f: &Vec<Fr>, chunk: usize, r: Fr) -> (out: Vec<Fr>)
    requires
        chunk > 0,
        f.len() + 2 * chunk <= usize::MAX,
    ensures
        values(out@) == fold_chunks(values(f@), chunk as int, r@),
{
    let chunks: usize = (f.len() + chunk - 1) / chunk;
    let half: usize = chunks / 2 + chunks % 2;
    let ghost fv = values(f@);
    let ghost want = fold_chunks(fv, chunk as int, r@);
    let mut out: Vec<Fr> = Vec::new();
    proof {
        assert(chunks * chunk < f.len() + chunk) by (nonlinear_arith)
            requires
                chunk > 0,
                chunks == (f.len() + chunk - 1) / chunk as int,
        ;
    }
    assert(half * chunk >= 0) by (nonlinear_arith);
    assert(0 * chunk == 0) by (nonlinear_arith);
    for i in 0..half
        invariant
            chunk > 0,
            f.len() + 2 * chunk <= usize::MAX,
            chunks == num_chunks(f.len() as int, chunk as int),
            chunks * chunk < f.len() + chunk,
            half == (chunks + 1) / 2,
            fv == values(f@),
            want == fold_chunks(fv, chunk as int, r@),
            want.len() == half * chunk,
            out.len() == i * chunk,
            forall|t: int| 0 <= t < out.len() ==> (#[trigger] out[t])@ == want[t],
    {
        assert((i + 1) * chunk <= half * chunk) by (nonlinear_arith)
            requires
                i + 1 <= half,
        ;
        assert((i + 1) * chunk == i * chunk + chunk) by (nonlinear_arith);
        assert((2 * i + 2) * chunk <= chunks * chunk + chunk) by (nonlinear_arith)
            requires
                2 * i + 2 <= chunks + 1,
                chunk > 0,
        ;
        assert(2 * i * chunk >= 0 && (2 * i + 2) * chunk == 2 * i * chunk + 2 * chunk)
            by (nonlinear_arith)
            requires
                i >= 0,
                chunk > 0,
        ;
        assert((2 * i + 1) * chunk == 2 * i * chunk + chunk) by (nonlinear_arith);
        let base: usize = 2 * i * chunk;
        for j in 0..chunk
            invariant
                chunk > 0,
                fv == values(f@),
                want == fold_chunks(fv, chunk as int, r@),
                base == 2 * i * chunk,
                base + 2 * chunk <= usize::MAX,
                (2 * i + 1) * chunk == base + chunk,
                i * chunk + chunk <= want.len(),
                out.len() == i * chunk + j,
                forall|t: int| 0 <= t < out.len() ==> (#[trigger] out[t])@ == want[t],
        {
            let lo = entry(f, base + j);
            let hi = entry(f, base + chunk + j);
            proof {
                let t = i * chunk + j;
                vstd::arithmetic::div_mod::lemma_fundamental_div_mod_converse(
                    t,
                    chunk as int,
                    i as int,
                    j as int,
                );
                assert(t / chunk as int == i && t % chunk as int == j);
                assert(0 <= i * chunk) by (nonlinear_arith)
                    requires
                        i >= 0,
                        chunk > 0,
                ;
            }
            out.push(lo + (hi - lo) * r);
        }
    }
    assert(values(out@) =~= want);
    out
}

fn resized_exec(f: &Vec<Fr>, n: usize) -> (out: Vec<Fr>)
    ensures
        values(out@) == resized(values(f@), n as int),
        out.len() == n,
{
    let mut out: Vec<Fr> = Vec::new();
    for i in 0..n
        invariant
            out.len() == i,
            forall|j: int| 0 <= j < i ==> (#[trigger] out[j])@ == at(values(f@), j),
    {
        out.push(entry(f, i));
    }
    assert(values(out@) =~= resized(values(f@), n as int));
    out
}

fn lengthened_exec(p: &Vec<Fr>, n: usize) -> (out: Vec<Fr>)
    ensures
        values(out@) == lengthened(values(p@), n as int),
        out.len() >= n,
{
    if p.len() >= n {
        let out = copied(p);
        assert(values(out@).len() == out.len());
        assert(values(p@).len() == p.len());
        out
    } else {
        resized_exec(p, n)
    }
}

/// The coordinates that count stay as they are.
proof fn lemma_lengthened(p: Seq<int>, n: int)
    ensures
        openable(n as nat, p) <==> openable(n as nat, lengthened(p, n)),
{
    let q = lengthened(p, n);
    assert forall|i: int| 0 <= i < n implies #[trigger] at(p, i) == at(q, i) by {}
    if openable(n as nat, p) {
        assert forall|i: int| 0 <= i < n implies invertible(1 - #[trigger] at(q, i)) by {
            assert(invertible(1 - at(p, i)));
        }
    }
    if openable(n as nat, q) {
        assert forall|i: int| 0 <= i < n implies invertible(1 - #[trigger] at(p, i)) by {
            assert(invertible(1 - at(q, i)));
        }
    }
}

/// `scale` of the first `n + 1` coordinates.
proof fn lemma_scale_step(p: Seq<int>, n: int)
    requires
        0 <= n < p.len(),
    ensures
        scale(p.take(n + 1)) == scale(p.take(n)) * (1 - p[n]),
{
    let a = p.take(n + 1);
    let b = p.take(n);
    crate::sums::lemma_product_eq(n, |i: int| 1 - a[i], |i: int| 1 - b[i]);
}

/// The product of the complements of the coordinates, and the transformed
/// coordinates; nothing if a coordinate is one.
fn transform_exec(point: &Vec<Fr>, log: usize) -> (out: Option<(Fr, Vec<Fr>)>)
    requires
        log <= point.len(),
    ensures
        out is Some <==> openable(log as nat, values(point@)),
        out is Some ==> {
            let p = values(point@).take(log as int);
            &&& (out->0).0@ == scale(p)
            &&& values((out->0).1@) == p.map_values(|x: int| transform(x))
            &&& invertible(scale(p))
        },
{
    let one = Fr::one();
    let mut mul = one;
    let mut moved: Vec<Fr> = Vec::new();
    let ghost pv = values(point@);
    proof {
        lemma_invertible_one();
        assert(scale(pv.take(0)) == 1);
    }
    for i in 0..log
        invariant
            log <= point.len(),
            one@ == 1,
            pv == values(point@),
            mul@ == scale(pv.take(i as int)),
            invertible(mul@),
            moved.len() == i,
            forall|j: int| 0 <= j < i ==> (#[trigger] moved[j])@ == transform(pv[j]),
            forall|j: int| 0 <= j < i ==> invertible(1 - #[trigger] at(pv, j)),
    {
        let d = one - point[i];
        match d.inverse() {
            None => {
                assert(!invertible(1 - at(pv, i as int)));
                return None;
            },
            Some(inv) => {
                proof {
                    lemma_scale_step(pv, i as int);
                    lemma_invertible_mul(mul@, d@);
                }
                mul = mul * d;
                moved.push(point[i] * inv);
            },
        }
    }
    assert(values(moved@) =~= pv.take(log as int).map_values(|x: int| transform(x)));
    Some((mul, moved))
}

impl Mkzg {
    /// The parameters for two bases and the secrets `tau`.
    pub fn gen_srs(g: G1, h: G2, tau: &Vec<Fr>) -> (out: (MkzgProveParams, MkzgVerParams))
        requires
            pow2(tau.len() as nat) <= usize::MAX,
        ensures
            out.0@ == srs_of(g@, values(tau@)),
            out.1@ == ver_params_of(g@, h@, values(tau@)),
    {
        let len: usize = tau.len();
        let ghost tv = values(tau@);
        let mut params: Vec<G2> = Vec::new();
        for i in 0..len
            invariant
                len == tau.len(),
                tv == values(tau@),
                params.len() == i,
                forall|j: int| 0 <= j < i ==> (#[trigger] params[j])@ == h@ * tv[j],
        {
            params.push(h.times(tau[i]));
        }
        let vp = MkzgVerParams { g, h, params };
        assert(vp@.params =~= ver_params_of(g@, h@, tv).params);
        let mut power: Vec<Fr> = Vec::new();
        power.push(Fr::one());
        proof {
            lemma_pow2_step(0);
            assert(ones(0).len() == 0);
        }
        for i in 0..len
            invariant
                len == tau.len(),
                pow2(len as nat) <= usize::MAX,
                tv == values(tau@),
                power.len() == pow2(i as nat),
                forall|j: int|
                    0 <= j < power.len() ==> (#[trigger] power[j])@ == monomial(
                        tv.take(i as int),
                        j,
                    ),
        {
            let cur: usize = power.len();
            let ghost t0 = tv.take(i as int);
            let ghost t1 = tv.take(i + 1);
            proof {
                lemma_pow2_step(i as nat);
                lemma_pow2_mono((i + 1) as nat, len as nat);
                assert(t1.drop_last() =~= t0);
                assert(ones(t1.len()).drop_last() =~= ones(t0.len()));
                assert(t1.last() == tv[i as int]);
            }
            for j in 0..cur
                invariant
                    i < len,
                    len == tau.len(),
                    tv == values(tau@),
                    cur == pow2(i as nat),
                    power.len() == cur + j,
                    t0 == tv.take(i as int),
                    forall|l: int| 0 <= l < cur ==> (#[trigger] power[l])@ == monomial(t0, l),
                    forall|l: int|
                        cur <= l < cur + j ==> (#[trigger] power[l])@ == monomial(t0, l - cur)
                            * tv[i as int],
            {
                let x = power[j] * tau[i];
                power.push(x);
            }
            proof {
                assert forall|l: int| 0 <= l < power.len() implies (#[trigger] power[l])@
                    == monomial(t1, l) by {
                    lemma_prod_at_last(ones(t1.len()), t1, l);
                    if l < cur {
                        vstd::arithmetic::div_mod::lemma_small_mod(l as nat, cur as nat);
                        assert(monomial(t0, l) * 1 == monomial(t0, l));
                    } else {
                        vstd::arithmetic::div_mod::lemma_fundamental_div_mod_converse(
                            l,
                            cur as int,
                            1,
                            l - cur,
                        );
                    }
                }
            }
        }
        assert(tv.take(len as int) =~= tv);
        let total: usize = power.len();
        let mut bases: Vec<G1> = Vec::new();
        for i in 0..total
            invariant
                total == power.len(),
                forall|j: int| 0 <= j < power.len() ==> (#[trigger] power[j])@ == monomial(tv, j),
                bases.len() == i,
                forall|j: int| 0 <= j < i ==> (#[trigger] bases[j])@ == g@ * monomial(tv, j),
        {
            bases.push(g.times(power[i]));
        }
        let pp = MkzgProveParams(bases);
        assert(pp@ =~= srs_of(g@, tv));
        (pp, vp)
    }

    /// The commitment to a polynomial.
    pub fn commit(srs: &MkzgProveParams, poly: &MlPoly) -> (out: MkzgCommit)
        requires
            srs@.len() > 0,
            poly.0.len() + srs@.len() <= usize::MAX,
        ensures
            out@ == commit_of(srs@, poly@),
    {
        let chunk: usize = srs.0.len();
        let polies = poly.split(chunk);
        let mut commits: Vec<G1> = Vec::new();
        for i in 0..polies.len()
            invariant
                chunk == srs@.len(),
                srs@ == points(srs.0@),
                polies.len() == num_chunks(poly.0.len() as int, chunk as int),
                forall|c: int|
                    0 <= c < polies.len() ==> (#[trigger] polies[c])@ == Seq::new(
                        chunk as nat,
                        |j: int| at(poly@, c * chunk + j),
                    ),
                commits.len() == i,
                forall|c: int| 0 <= c < i ==> (#[trigger] commits[c])@ == commit_of(srs@, poly@)[c],
        {
            let p = G1::msm(&srs.0, &polies[i].0);
            proof {
                let q = polies[i as int]@;
                lemma_sum_eq(
                    chunk as int,
                    |j: int| srs@[j] * q[j],
                    |j: int| srs@[j] * at(poly@, i * srs@.len() + j),
                );
                assert(q.len() == chunk);
            }
            commits.push(p);
        }
        let out = MkzgCommit(commits);
        assert(out@ =~= commit_of(srs@, poly@));
        out
    }

    /// Opens a polynomial at a point, and gives its value there.
    pub fn open(
        srs: &MkzgProveParams,
        poly: &MlPoly,
        point: &Vec<Fr>,
    ) -> (out: (MkzgProof, Fr))
        requires
            chunked(srs@),
            poly.0.len() + 3 * srs@.len() <= usize::MAX,
            openable(log_of(srs@.len() as int), values(point@)),
        ensures
            (out.0@, out.1@) == open_of(srs@, poly@, values(point@)),
    {
        let chunk: usize = srs.0.len();
        let ghost log = log_of(srs@.len() as int);
        proof {
            lemma_pow2_step(log);
        }
        let mut log_chunk: usize = 0;
        let mut size: usize = 1;
        proof {
            lemma_pow2_step(0);
        }
        while size < chunk
            invariant
                chunk == pow2(log),
                size == pow2(log_chunk as nat),
                log_chunk <= log,
                log_chunk <= size,
            decreases log - log_chunk,
        {
            proof {
                lemma_pow2_step(log_chunk as nat);
                if log_chunk < log {
                    lemma_pow2_mono((log_chunk + 1) as nat, log);
                }
            }
            size = size * 2;
            log_chunk = log_chunk + 1;
        }
        proof {
            if log_chunk < log {
                lemma_pow2_mono((log_chunk + 1) as nat, log);
                lemma_pow2_step(log_chunk as nat);
            }
            lemma_lengthened(values(point@), log as int);
        }
        let point = &lengthened_exec(point, log_chunk);
        let ghost pv = values(point@);
        let n: usize = point.len();
        let mut cur = copied(&poly.0);
        let ghost tail = pv.skip(log as int);
        assert(tail.skip(0) =~= tail);
        for i in log_chunk..n
            invariant
                log_chunk <= i <= n,
                log_chunk == log,
                n == point.len(),
                pv == values(point@),
                tail == pv.skip(log as int),
                chunk > 0,
                cur.len() + 2 * chunk <= usize::MAX,
                3 * chunk <= usize::MAX,
                fold_chunks_all(poly@, chunk as int, tail) == fold_chunks_all(
                    values(cur@),
                    chunk as int,
                    tail.skip(i - log),
                ),
        {
            proof {
                let rest = tail.skip(i - log);
                assert(rest[0] == pv[i as int]);
                assert(rest.drop_first() =~= tail.skip(i + 1 - log));
                lemma_fold_chunks_len(values(cur@), chunk as int, pv[i as int]);
            }
            let next = fold_chunks_exec(&cur, chunk, point[i]);
            assert(values(next@).len() == next.len());
            cur = next;
        }
        assert(tail.skip(n - log) =~= Seq::<int>::empty());
        let mut coeffs = resized_exec(&cur, chunk);
        let moved = transform_exec(point, log_chunk).unwrap();
        let mul = moved.0;
        let at_point = moved.1;
        let mut proofs: Vec<G1> = Vec::new();
        let mut bases = copied_points(&srs.0);
        let ghost mp = values(at_point@);
        let ghost whole = open_monomial(srs@, values(coeffs@), mp);
        proof {
            assert(mp.skip(0) =~= mp);
            assert(points(proofs@) + whole.0 =~= whole.0);
            assert(mp.len() == log);
        }
        for k in 0..log_chunk
            invariant
                log_chunk == log,
                log_chunk == at_point.len(),
                mp == values(at_point@),
                coeffs.len() == pow2((log - k) as nat),
                bases.len() == coeffs.len(),
                ({
                    let (rest, value) = open_monomial(
                        points(bases@),
                        values(coeffs@),
                        mp.skip(k as int),
                    );
                    whole == (points(proofs@) + rest, value)
                }),
        {
            let half: usize = coeffs.len() / 2;
            let p = at_point[k];
            let mut next_bases: Vec<G1> = Vec::new();
            let mut scalars: Vec<Fr> = Vec::new();
            let mut next: Vec<Fr> = Vec::new();
            proof {
                lemma_pow2_step((log - k - 1) as nat);
            }
            let ghost bv = points(bases@);
            let ghost cv = values(coeffs@);
            for i in 0..half
                invariant
                    coeffs.len() == 2 * half,
                    bases.len() == 2 * half,
                    bv == points(bases@),
                    cv == values(coeffs@),
                    next_bases.len() == i,
                    scalars.len() == i,
                    next.len() == i,
                    forall|j: int| 0 <= j < i ==> (#[trigger] next_bases[j])@ == evens(bv)[j],
                    forall|j: int| 0 <= j < i ==> (#[trigger] scalars[j])@ == odds(cv)[j],
                    forall|j: int| 0 <= j < i ==> (#[trigger] next[j])@ == fold_monomial(cv, p@)[j],
            {
                next_bases.push(bases[i * 2]);
                scalars.push(coeffs[i * 2 + 1]);
                next.push(coeffs[i * 2] + coeffs[i * 2 + 1] * p);
            }
            assert(points(next_bases@) =~= evens(bv));
            assert(values(scalars@) =~= odds(cv));
            assert(values(next@) =~= fold_monomial(cv, p@));
            let ghost seen = points(proofs@);
            let q = G1::msm(&next_bases, &scalars);
            proofs.push(q);
            proof {
                let rest = mp.skip(k as int);
                assert(rest[0] == p@);
                assert(rest.drop_first() =~= mp.skip(k + 1));
                let (tail_proof, v) = open_monomial(
                    evens(bv),
                    fold_monomial(cv, p@),
                    mp.skip(k + 1),
                );
                assert(points(proofs@) =~= seen.push(q@));
                assert(seen + (seq![q@] + tail_proof) =~= points(proofs@) + tail_proof);
            }
            coeffs = next;
            bases = next_bases;
        }
        proof {
            lemma_pow2_step(0);
            assert(mp.skip(log as int) =~= Seq::<int>::empty());
            assert(points(proofs@) + Seq::<int>::empty() =~= points(proofs@));
        }
        (MkzgProof(proofs), coeffs[0] * mul)
    }

    /// Checks an opening.
    pub fn verify(
        vp: &MkzgVerParams,
        point: &Vec<Fr>,
        comm: &MkzgCommit,
        value: Fr,
        proof: &MkzgProof,
    ) -> (out: bool)
        ensures
            out == verify_of(vp@, values(point@), comm@, value@, proof@),
    {
        let k: usize = vp.params.len();
        proof {
            lemma_lengthened(values(point@), k as int);
        }
        let point = &lengthened_exec(point, k);
        let ghost pv = values(point@);
        if comm.0.len() == 0 || proof.0.len() != k {
            return false;
        }
        let moved = match transform_exec(point, k) {
            None => {
                return false;
            },
            Some(m) => m,
        };
        let inv = moved.0.inverse().unwrap();
        let scaled = value * inv;
        let h = vp.h;
        let mut ps: Vec<G1> = Vec::new();
        let mut qs: Vec<G2> = Vec::new();
        let ghost mp = values(moved.1@);
        let ghost vv = vp@;
        assert(mp.len() == moved.1.len());
        for i in 0..k
            invariant
                k == vp.params.len(),
                k == proof.0.len(),
                k == moved.1.len(),
                vv == vp@,
                h@ == vv.h,
                mp == values(moved.1@),
                ps.len() == i,
                qs.len() == i,
                forall|j: int| 0 <= j < i ==> (#[trigger] ps[j])@ == proof@[j],
                forall|j: int| 0 <= j < i ==> (#[trigger] qs[j])@ == vv.params[j] - vv.h * mp[j],
        {
            ps.push(proof.0[i]);
            qs.push(vp.params[i].minus(h.times(moved.1[i])));
        }
        ps.push(vp.g);
        qs.push(h.times(scaled));
        let mut commits = copied_points(&comm.0);
        let n: usize = point.len();
        let ghost tail = pv.skip(k as int);
        assert(tail.skip(0) =~= tail);
        for i in k..n
            invariant
                k <= i <= n,
                n == point.len(),
                pv == values(point@),
                tail == pv.skip(k as int),
                commits.len() > 0,
                fold_all(comm@, tail) == fold_all(points(commits@), tail.skip(i - k)),
        {
            proof {
                let rest = tail.skip(i - k);
                assert(rest[0] == pv[i as int]);
                assert(rest.drop_first() =~= tail.skip(i + 1 - k));
            }
            let next = fold_points(&commits, point[i]);
            assert(points(next@).len() == next.len());
            commits = next;
        }
        assert(tail.skip(n - k) =~= Seq::<int>::empty());
        let mut rs: Vec<G1> = Vec::new();
        rs.push(commits[0]);
        let mut ss: Vec<G2> = Vec::new();
        ss.push(h);
        proof {
            let f = |i: int| points(ps@)[i] * points2(qs@)[i];
            lemma_sum_eq(
                k as int,
                f,
                |i: int| proof@[i] * (vv.params[i] - vv.h * transform(pv[i])),
            );
            assert(inner_product(points(ps@), points2(qs@)) == sum_to(k + 1, f));
            reveal_with_fuel(sum_to, 2);
            assert(inner_product(points(rs@), points2(ss@)) == fold_all(comm@, tail)[0] * vv.h);
        }
        pairings_agree(&ps, &qs, &rs, &ss)
    }
}

/// Folding the chunks does not make them longer than a filled-up chunk more.
proof fn lemma_fold_chunks_len(f: Seq<int>, chunk: int, r: int)
    requires
        chunk > 0,
    ensures
        fold_chunks(f, chunk, r).len() <= f.len() || fold_chunks(f, chunk, r).len() <= chunk,
{
    let c = num_chunks(f.len() as int, chunk);
    let m = (c + 1) / 2;
    assert(c * chunk < f.len() + chunk && c >= 0) by (nonlinear_arith)
        requires
            chunk > 0,
            c == (f.len() + chunk - 1) / chunk,
    ;
    if c <= 1 {
        assert(m * chunk <= chunk) by (nonlinear_arith)
            requires
                m <= 1,
                chunk > 0,
        ;
    } else {
        assert(m <= c - 1 || c == 1);
        if m <= c - 1 {
            assert(m * chunk <= (c - 1) * chunk) by (nonlinear_arith)
                requires
                    m <= c - 1,
                    chunk > 0,
            ;
            assert((c - 1) * chunk == c * chunk - chunk) by (nonlinear_arith);
        }
    }
    assert(m * chunk >= 0) by (nonlinear_arith)
        requires
            m >= 0,
            chunk > 0,
    ;
}

/// The views of a sequence of polynomials.
pub open spec fn poly_tables(v: Seq<MlPoly>) -> Seq<Seq<int>> {
    v.map_values(|p: MlPoly| p@)
}

/// The views of a sequence of commitments.
pub open spec fn commit_tables(v: Seq<MkzgCommit>) -> Seq<Seq<int>> {
    v.map_values(|c: MkzgCommit| c@)
}

/// The expression of a joint opening reads its tables and coins only.
pub proof fn lemma_batch_gate_fits(k: int, n: int)
    requires
        0 <= k <= n,
        2 * n <= usize::MAX,
    ensures
        gate_fits(batch_gate(k, n), (2 * n) as nat, n as nat),
    decreases k,
{
    if k > 0 {
        lemma_batch_gate_fits(k - 1, n);
        reveal_with_fuel(gate_fits, 5);
    }
}

/// What the expression of a joint opening computes.
pub proof fn lemma_batch_gate_value(k: int, n: int, v: Seq<int>, coins: Seq<int>)
    requires
        0 <= k <= n,
        2 * n <= usize::MAX,
    ensures
        gate_value(batch_gate(k, n), v, coins) == sum_to(
            k,
            |i: int| coins[i] * (v[i] * v[n + i]),
        ),
    decreases k,
{
    if k > 0 {
        lemma_batch_gate_value(k - 1, n, v, coins);
        reveal_with_fuel(gate_value, 5);
    }
}

pub proof fn lemma_batch_vars(polys: Seq<Seq<int>>, pts: Seq<Seq<int>>, k: int, i: int)
    requires
        0 <= i < k <= polys.len(),
        polys.len() == pts.len(),
    ensures
        log2_ceil(polys[i].len() as int) <= batch_vars(polys, pts, k),
        pts[i].len() <= batch_vars(polys, pts, k),
    decreases k,
{
    if i < k - 1 {
        lemma_batch_vars(polys, pts, k - 1, i);
    }
}

/// The greatest length is an upper bound.
pub proof fn lemma_max_len(v: Seq<Seq<int>>, k: int, i: int)
    requires
        0 <= i < k <= v.len(),
    ensures
        v[i].len() <= max_len(v, k),
    decreases k,
{
    if i < k - 1 {
        lemma_max_len(v, k - 1, i);
    }
}

/// The greatest length is below any bound on all the lengths.
pub proof fn lemma_max_len_bound(v: Seq<Seq<int>>, k: int, b: int)
    requires
        0 <= k <= v.len(),
        0 <= b,
        forall|i: int| 0 <= i < k ==> (#[trigger] v[i]).len() <= b,
    ensures
        0 <= max_len(v, k) <= b,
    decreases k,
{
    if k > 0 {
        lemma_max_len_bound(v, k - 1, b);
        assert(v[k - 1].len() <= b);
    }
}

fn powers_exec(r: Fr, k: usize) -> (out: Vec<Fr>)
    ensures
        values(out@) == powers(r@, k as int),
        out.len() == k,
{
    let mut out = filled(Fr::one(), k);
    let mut rp = Fr::one();
    proof {
        lemma_pow0(r@);
    }
    for s in 0..k
        invariant
            out.len() == k,
            rp@ == pow(r@, s as nat),
            forall|i: int| k - s <= i < k ==> (#[trigger] out[i])@ == pow(r@, (k - 1 - i) as nat),
    {
        let i: usize = k - 1 - s;
        out.set(i, rp);
        proof {
            reveal(pow);
            assert(pow(r@, (s + 1) as nat) == r@ * pow(r@, s as nat));
            assert(rp@ * r@ == r@ * rp@) by (nonlinear_arith);
        }
        rp = rp * r;
    }
    assert(values(out@) =~= powers(r@, k as int));
    out
}

fn batch_gate_exec(n: usize) -> (out: Gate)
    requires
        2 * n <= usize::MAX,
    ensures
        out == batch_gate(n as int, n as int),
{
    let mut out = Gate::Constant(0);
    for k in 0..n
        invariant
            2 * n <= usize::MAX,
            out == batch_gate(k as int, n as int),
    {
        let term = Gate::Mul(
            Box::new(Gate::Coin(k)),
            Box::new(Gate::Mul(Box::new(Gate::Var(k)), Box::new(Gate::Var(n + k)))),
        );
        out = Gate::Add(Box::new(out), Box::new(term));
    }
    out
}

/// The number of variables of a joint opening.
fn batch_vars_exec(polys: &Vec<MlPoly>, pts: &Vec<Vec<Fr>>) -> (out: usize)
    requires
        polys.len() == pts.len(),
    ensures
        out == batch_vars(poly_tables(polys@), tables(pts@), polys.len() as int),
{
    let mut nv: usize = 0;
    for i in 0..polys.len()
        invariant
            polys.len() == pts.len(),
            nv == batch_vars(poly_tables(polys@), tables(pts@), i as int),
    {
        let a: usize = log2_ceil_exec(polys[i].0.len());
        let b: usize = pts[i].len();
        let c: usize = if a >= b {
            a
        } else {
            b
        };
        if nv < c {
            nv = c;
        }
    }
    nv
}

fn max_len_points(v: &Vec<Vec<Fr>>) -> (out: usize)
    ensures
        out == max_len(tables(v@), v.len() as int),
{
    let mut out: usize = 0;
    for i in 0..v.len()
        invariant
            out == max_len(tables(v@), i as int),
    {
        if out < v[i].len() {
            out = v[i].len();
        }
    }
    out
}

/// The challenges and parameters of a joint opening are enough for it.
pub open spec fn batch_openable(
    srs: Seq<int>,
    polys: Seq<Seq<int>>,
    pts: Seq<Seq<int>>,
    ch: Seq<int>,
) -> bool {
    let nv = batch_vars(polys, pts, polys.len() as int);
    &&& polys.len() > 0
    &&& polys.len() == pts.len()
    &&& 2 * polys.len() <= usize::MAX
    &&& chunked(srs)
    &&& pow2(nv as nat) + 3 * srs.len() <= usize::MAX
    &&& ch.len() >= 1 + nv
    &&& openable(log_of(srs.len() as int), ch.subrange(1, 1 + nv))
}

impl Mkzg {
    /// Opens several polynomials, each at a point of its own, by one opening: a
    /// sumcheck moves the claims to one point, where the weighted sum of the
    /// polynomials is opened.
    pub fn batch_open(
        srs: &MkzgProveParams,
        polys: &Vec<MlPoly>,
        pts: &Vec<Vec<Fr>>,
        ro: &mut RandomOracle,
    ) -> (out: (MkzgProof, SumcheckProof))
        requires
            batch_openable(srs@, poly_tables(polys@), tables(pts@), old(ro)@),
        ensures
            (out.0@, out.1@) == batch_open_of(srs@, poly_tables(polys@), tables(pts@), old(ro)@),
            final(ro)@ == old(ro)@.skip(
                1 + batch_vars(poly_tables(polys@), tables(pts@), polys.len() as int),
            ),
            final(ro).all() == old(ro).all(),
            final(ro).all_ints() == old(ro).all_ints(),
            final(ro).ints() == old(ro).ints(),
    {
        let k: usize = polys.len();
        let ghost fv = poly_tables(polys@);
        let ghost pv = tables(pts@);
        let ghost ch = ro@;
        let nv: usize = batch_vars_exec(polys, pts);
        let ghost rp = ch.subrange(1, 1 + nv);
        let r = ro.next_field();
        assert(ro@.take(nv as int) =~= rp);
        assert(ro@.skip(nv as int) =~= ch.skip(1 + nv));
        let coins = powers_exec(r, k);
        let full: usize = two_pow(nv);
        let ghost want = batch_tables(fv, pv, nv as int);
        let mut tabs: Vec<Vec<Fr>> = Vec::new();
        for i in 0..k
            invariant
                k == polys.len(),
                fv == poly_tables(polys@),
                pv == tables(pts@),
                k == pts.len(),
                full == pow2(nv as nat),
                want == batch_tables(fv, pv, nv as int),
                tabs.len() == i,
                forall|j: int| 0 <= j < i ==> values((#[trigger] tabs[j])@) == want[j],
        {
            let t = resized_exec(&polys[i].0, full);
            assert(values(t@) == resized(fv[i as int], full as int));
            tabs.push(t);
        }
        for i in 0..k
            invariant
                k == polys.len(),
                k == pts.len(),
                fv == poly_tables(polys@),
                pv == tables(pts@),
                full == pow2(nv as nat),
                full <= usize::MAX,
                want == batch_tables(fv, pv, nv as int),
                tabs.len() == k + i,
                forall|j: int| 0 <= j < k + i ==> values((#[trigger] tabs[j])@) == want[j],
        {
            let p = resized_exec(&pts[i], nv);
            let eq = MlPoly::new_eq(&p);
            assert(values(eq.0@) =~= want[k + i]) by {
                assert(values(p@) == resized(pv[i as int], nv as int));
            }
            tabs.push(eq.0);
        }
        proof {
            assert(tables(tabs@) =~= want);
            assert forall|t: int| 0 <= t < want.len() implies (#[trigger] want[t]).len()
                == pow2(nv as nat) by {
                if t < k {
                    assert(want[t] == resized(fv[t], pow2(nv as nat) as int));
                } else {
                    assert(want[t].len() == pow2(nv as nat));
                }
            }
            assert(tabs[0].len() == want[0].len());
            lemma_pow2_step(nv as nat);
            lemma_batch_gate_fits(k as int, k as int);
        }
        let gate = batch_gate_exec(k);
        let mut tmp = Proof::new();
        let done = prove_rounds(&gate, &coins, tabs, 2, nv, &mut tmp, ro);
        let rounds: usize = tmp.remaining_f();
        let ghost msgs = tmp@.f;
        let sc = tmp.next_n_fs(rounds);
        proof {
            assert(msgs.take(rounds as int) =~= msgs);
            assert(msgs =~= messages(
                batch_gate(k as int, k as int),
                powers(r@, k as int),
                want,
                pow2(nv as nat) as int,
                2,
                rp,
            ));
            assert(values(done.1@).len() == want.len());
        }
        let point = done.0;
        let last = done.1;
        let mut weights: Vec<Fr> = Vec::new();
        let ghost w = batch_weights(pv, nv as int, r@, rp);
        for i in 0..k
            invariant
                k == pts.len(),
                pv == tables(pts@),
                k == pv.len(),
                k == fv.len(),
                last.len() == 2 * k,
                coins.len() == k,
                values(coins@) == powers(r@, k as int),
                want == batch_tables(fv, pv, nv as int),
                values(last@) == values_at(want, rp),
                w == batch_weights(pv, nv as int, r@, rp),
                weights.len() == i,
                forall|j: int| 0 <= j < i ==> (#[trigger] weights[j])@ == w[j],
        {
            proof {
                assert(values(last@)[k + i] == mle(want[k + i], rp));
                assert(values(coins@)[i as int] == coins[i as int]@);
            }
            weights.push(coins[i] * last[k + i]);
        }
        let mut longest: usize = 0;
        for i in 0..k
            invariant
                k == polys.len(),
                fv == poly_tables(polys@),
                longest == max_len(fv, i as int),
        {
            if longest < polys[i].0.len() {
                longest = polys[i].0.len();
            }
        }
        let mut combined: Vec<Fr> = Vec::new();
        for j in 0..longest
            invariant
                k == polys.len(),
                fv == poly_tables(polys@),
                longest == max_len(fv, k as int),
                weights.len() == k,
                forall|j: int| 0 <= j < k ==> (#[trigger] weights[j])@ == w[j],
                combined.len() == j,
                forall|l: int| 0 <= l < j ==> (#[trigger] combined[l])@ == combine(fv, w)[l],
        {
            let mut acc = Fr::zero();
            for i in 0..k
                invariant
                    k == polys.len(),
                    fv == poly_tables(polys@),
                    weights.len() == k,
                    forall|j: int| 0 <= j < k ==> (#[trigger] weights[j])@ == w[j],
                    acc@ == sum_to(i as int, |i: int| w[i] * at(fv[i], j as int)),
            {
                let x = entry(&polys[i].0, j);
                assert(x@ == at(fv[i as int], j as int));
                acc = acc + weights[i] * x;
            }
            combined.push(acc);
        }
        let poly = MlPoly(combined);
        proof {
            assert(poly@ =~= combine(fv, w));
            assert forall|i: int| 0 <= i < k implies (#[trigger] fv[i]).len() <= pow2(nv as nat) by {
                lemma_batch_vars(fv, pv, k as int, i);
                lemma_log2_ceil(fv[i].len() as int);
                lemma_pow2_mono(log2_ceil(fv[i].len() as int), nv as nat);
            }
            lemma_max_len_bound(fv, k as int, pow2(nv as nat) as int);
        }
        let opened = Mkzg::open(srs, &poly, &point);
        (opened.0, SumcheckProof(sc))
    }

    /// Checks a joint opening, with the challenges of a channel.
    pub fn batch_verify_with(
        vp: &MkzgVerParams,
        pts: &Vec<Vec<Fr>>,
        comms: &Vec<MkzgCommit>,
        vals: &Vec<Fr>,
        proof: &MkzgProof,
        sumcheck: &SumcheckProof,
        chan: &mut Channel,
    )
        requires
            pts.len() == comms.len(),
            pts.len() == vals.len(),
        ensures
            final(chan)@ == batch_verify_of(
                vp@,
                tables(pts@),
                commit_tables(comms@),
                values(vals@),
                proof@,
                sumcheck@,
                old(chan)@,
            ),
            final(chan).same_oracle(old(chan)),
    {
        let k: usize = pts.len();
        let ghost pv = tables(pts@);
        let ghost cv = commit_tables(comms@);
        let ghost vv = values(vals@);
        let nv: usize = if k == 0 {
            1
        } else {
            max_len_points(pts)
        };
        let r = chan.challenge();
        let mut y = Fr::zero();
        for i in 0..k
            invariant
                k == vals.len(),
                vv == values(vals@),
                y@ == horner(vv.take(i as int), r@),
        {
            assert(vv.take(i + 1).drop_last() =~= vv.take(i as int));
            y = y * r + vals[i];
        }
        assert(vv.take(k as int) =~= vv);
        let enough: bool = sumcheck.0.len() / 3 >= nv;
        chan.require(enough);
        let half = Fr::from_u64(2).inverse();
        proof {
            law_word_invertible(2);
        }
        let one_over_two = half.unwrap();
        let minus_three_over_two = Fr::zero() - one_over_two * Fr::from_u64(3);
        let mut rp: Vec<Fr> = Vec::new();
        let ghost sc = sumcheck@;
        let ghost whole = batch_rounds(sc, 0, nv as int, y@, chan@);
        assert(whole.0 =~= values(rp@) + whole.0);
        for i in 0..nv
            invariant
                sc == sumcheck@,
                one_over_two@ == inverse_of(2),
                minus_three_over_two@ == -(inverse_of(2) * 3),
                rp.len() == i,
                chan.same_oracle(old(chan)),
                ({
                    let (p, last, end) = batch_rounds(sc, i as int, nv as int, y@, chan@);
                    whole == (values(rp@) + p, last, end)
                }),
        {
            let ghost rest = batch_rounds(sc, i as int, nv as int, y@, chan@);
            let ghost seen = values(rp@);
            let s0 = message_entry(&sumcheck.0, i, 0);
            let s1 = message_entry(&sumcheck.0, i, 1);
            let s2 = message_entry(&sumcheck.0, i, 2);
            chan.require(s0 + s1 == y);
            let c = chan.challenge();
            rp.push(c);
            y = s0 + c * (minus_three_over_two * s0 + s1 + s1 - one_over_two * s2) + c * c * (
            one_over_two * s0 - s1 + one_over_two * s2);
            proof {
                let next = batch_rounds(sc, i + 1, nv as int, y@, chan@);
                assert(rest == (seq![c@] + next.0, next.1, next.2));
                assert(values(rp@) =~= seen.push(c@));
                assert(seen + (seq![c@] + next.0) =~= values(rp@) + next.0);
            }
        }
        assert(values(rp@) + Seq::<int>::empty() =~= values(rp@));
        let ghost rv = values(rp@);
        let coins = powers_exec(r, k);
        let mut weights: Vec<Fr> = Vec::new();
        let ghost w = verifier_weights(pv, nv as int, r@, rv);
        for i in 0..k
            invariant
                k == pts.len(),
                pv == tables(pts@),
                coins.len() == k,
                values(coins@) == powers(r@, k as int),
                rv == values(rp@),
                w == verifier_weights(pv, nv as int, r@, rv),
                weights.len() == i,
                forall|j: int| 0 <= j < i ==> (#[trigger] weights[j])@ == w[j],
        {
            let p = resized_exec(&pts[i], nv);
            assert(values(p@) == resized(pv[i as int], nv as int));
            assert(values(coins@)[i as int] == coins[i as int]@);
            weights.push(coins[i] * MlPoly::eval_eq(&p, &rp));
        }
        let mut chunks: usize = 0;
        for i in 0..k
            invariant
                k == comms.len(),
                cv == commit_tables(comms@),
                chunks == max_len(cv, i as int),
        {
            if chunks < comms[i].0.len() {
                chunks = comms[i].0.len();
            }
        }
        let mut combined: Vec<G1> = Vec::new();
        for c in 0..chunks
            invariant
                k == comms.len(),
                cv == commit_tables(comms@),
                chunks == max_len(cv, k as int),
                weights.len() == k,
                forall|j: int| 0 <= j < k ==> (#[trigger] weights[j])@ == w[j],
                combined.len() == c,
                forall|l: int| 0 <= l < c ==> (#[trigger] combined[l])@ == combine_commits(cv, w)[l],
        {
            let mut sum = G1::zero();
            for i in 0..k
                invariant
                    k == comms.len(),
                    cv == commit_tables(comms@),
                    weights.len() == k,
                    forall|j: int| 0 <= j < k ==> (#[trigger] weights[j])@ == w[j],
                    sum@ == sum_to(i as int, |i: int| at(cv[i], c as int) * w[i]),
            {
                if c < comms[i].0.len() {
                    assert(cv[i as int][c as int] == comms[i as int].0[c as int]@);
                    sum = sum.plus(comms[i].0[c].times(weights[i]));
                } else {
                    assert(at(cv[i as int], c as int) == 0);
                    assert(0 * w[i as int] == 0);
                }
            }
            combined.push(sum);
        }
        let comm = MkzgCommit(combined);
        assert(comm@ =~= combine_commits(cv, w));
        let good = Mkzg::verify(vp, &rp, &comm, y, proof);
        chan.require(good);
    }

    /// Checks a joint opening.
    pub fn batch_verify(
        vp: &MkzgVerParams,
        pts: &Vec<Vec<Fr>>,
        comms: &Vec<MkzgCommit>,
        vals: &Vec<Fr>,
        proof: &(MkzgProof, SumcheckProof),
        ro: &mut RandomOracle,
    ) -> (out: bool)
        requires
            pts.len() == comms.len(),
            pts.len() == vals.len(),
        ensures
            ({
                let st = batch_verify_of(
                    vp@,
                    tables(pts@),
                    commit_tables(comms@),
                    values(vals@),
                    proof.0@,
                    proof.1@,
                    State {
                        u: Seq::empty(),
                        f: Seq::empty(),
                        g: Seq::empty(),
                        ch: old(ro)@,
                        ok: true,
                    },
                );
                out == st.ok && final(ro)@ == st.ch
            }),
            final(ro).all() == old(ro).all(),
            final(ro).all_ints() == old(ro).all_ints(),
            final(ro).ints() == old(ro).ints(),
    {
        let mut inner = RandomOracle::new(Vec::new(), Vec::new());
        core::mem::swap(&mut inner, ro);
        let mut chan = Channel { proof: Proof::new(), ro: inner, ok: true };
        Mkzg::batch_verify_with(vp, pts, comms, vals, &proof.0, &proof.1, &mut chan);
        core::mem::swap(&mut chan.ro, ro);
        chan.ok
    }
}

/// The entry `j` of message `i` of the joint sumcheck; zero past the end.
fn message_entry(sc: &Vec<Fr>, i: usize, j: usize) -> (out: Fr)
    requires
        j < 3,
    ensures
        out@ == at(values(sc@), 3 * i + j),
{
    if i <= sc.len() / 3 {
        if i * 3 <= usize::MAX - j {
            entry(sc, i * 3 + j)
        } else {
            Fr::zero()
        }
    } else {
        Fr::zero()
    }
}

} // verus!
