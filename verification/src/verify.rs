//! The verifier: checks that some vector satisfies a circuit.
use vstd::prelude::*;
use crate::channel::{
    Channel, State, challenge, challenges, read_f, read_fs, read_len, read_points, read_u, require,
};
use crate::field::{Fr, cong, copied, values};
use crate::kzg::MkzgCommit;
use crate::poly::{MlPoly, eq_prefix, ones_prefix};
use crate::preprocess::{KeyView, VerifierKey};
use crate::sparse_verifier::{
    VerAcc, VerifierAcc, batch_check, sparse_verify_of, sparse_verify_with, verify_batch,
};
use crate::sumcheck::{
    lemma_log2_ceil, lemma_log2_fits, log2_ceil, log2_ceil_exec, verifier_sumcheck, verify_rounds,
};
use crate::util::{Proof, RandomOracle};

verus! {

/// What the check of the constraints leaves: the commitment to the witness, the
/// point, and the three claimed products there.
pub ghost struct ConstraintClaims {
    pub witness: Seq<int>,
    pub point: Seq<int>,
    pub products: Seq<int>,
}

/// Checks the sumcheck of the constraints.
#[verifier::opaque]
pub open spec fn verify_constraints(st: State) -> (State, ConstraintClaims) {
    let (st1, witness) = read_points(st);
    let (st2, len) = read_len(st1, 2);
    let nv = log2_ceil(len) as int;
    let (st3, req) = challenges(st2, nv);
    let (point, y, st4) = verify_rounds(0, nv, 3, st3);
    let (st5, v) = read_fs(st4, 3);
    (
        require(st5, cong(y, (v[0] * v[1] - v[2]) * eq_prefix(req, point, len))),
        ConstraintClaims { witness, point, products: v },
    )
}

/// What the check of the lookups leaves.
pub ghost struct LookupClaims {
    pub r: int,
    pub alpha: int,
    pub count: Seq<int>,
    pub ele_inv: Seq<int>,
    pub tab_inv: Seq<int>,
    pub len: int,
    pub left: Seq<int>,
    pub ele: int,
    pub ele_inv_value: int,
    pub values: Seq<int>,
    pub right: Seq<int>,
    pub tab: int,
    pub tab_inv_value: int,
    pub count_value: int,
}

/// Checks the two sumchecks of the lookups.
#[verifier::opaque]
pub open spec fn verify_lookups(st: State) -> (State, LookupClaims) {
    let (st1, r) = challenge(st);
    let (st2, alpha) = challenge(st1);
    let (st3, count) = read_points(st2);
    let (st4, ele_inv) = read_points(st3);
    let (st5, tab_inv) = read_points(st4);
    let (st6, sum) = read_f(st5);
    let (st7, len) = read_len(st6, 2);
    let nv = log2_ceil(len) as int;
    let (st8, req) = challenges(st7, nv);
    let (st9, rs) = challenge(st8);
    let (left, y, st10) = verify_rounds(sum * rs, nv, 3, st9);
    let (st11, e) = read_fs(st10, 2);
    let st12 = require(
        st11,
        cong(y, (e[0] * e[1] - 1) * eq_prefix(req, left, len) + rs * e[1]),
    );
    let (st13, vals) = read_fs(st12, 3);
    let (st14, len2) = read_len(st13, 2);
    let nv2 = log2_ceil(len2) as int;
    let (st15, req2) = challenges(st14, nv2);
    let (st16, rt) = challenge(st15);
    let (right, y2, st17) = verify_rounds(sum * rt, nv2, 3, st16);
    let (st18, t) = read_fs(st17, 3);
    let st19 = require(
        st18,
        cong(y2, (t[0] * t[1] - 1) * eq_prefix(req2, right, len2) + rt * t[1] * t[2]),
    );
    (
        st19,
        LookupClaims {
            r,
            alpha,
            count,
            ele_inv,
            tab_inv,
            len,
            left,
            ele: e[0],
            ele_inv_value: e[1],
            values: vals,
            right,
            tab: t[0],
            tab_inv_value: t[1],
            count_value: t[2],
        },
    )
}

/// What the check of a joined product leaves.
pub ghost struct LinearClaims {
    pub sums: Seq<int>,
    pub r: int,
    pub point: Seq<int>,
    pub m: int,
    pub z: int,
}

/// Five values joined by the powers of `r`.
pub open spec fn joined_values(v: Seq<int>, r: int) -> int {
    (((v[4] * r + v[3]) * r + v[2]) * r + v[1]) * r + v[0]
}

/// Reads a number of rounds; zero if there are not even as many field elements.
pub open spec fn read_rounds(st: State) -> (State, int) {
    let (st1, n) = read_u(st);
    if n <= st1.f.len() {
        (st1, n)
    } else {
        (State { ok: false, ..st1 }, 0)
    }
}

/// Checks the sumcheck of a joined product.
#[verifier::opaque]
pub open spec fn verify_linear(st: State) -> (State, LinearClaims) {
    let (st1, sums) = read_fs(st, 5);
    let (st2, r) = challenge(st1);
    let (st3, nv) = read_rounds(st2);
    let (point, y, st4) = verify_rounds(joined_values(sums, r), nv, 2, st3);
    let (st5, v) = read_fs(st4, 2);
    (
        require(st5, cong(y, v[0] * v[1])),
        LinearClaims { sums, r, point, m: v[0], z: v[1] },
    )
}

/// The products on the suffix and on the prefix add up to the claimed ones.
pub open spec fn products_add_up(
    c: ConstraintClaims,
    l: LookupClaims,
    suf: LinearClaims,
    pre: LinearClaims,
) -> bool {
    &&& cong(suf.sums[0] + pre.sums[0], c.products[0])
    &&& cong(suf.sums[1] + pre.sums[1], c.products[1])
    &&& cong(suf.sums[2] + pre.sums[2], c.products[2])
    &&& cong(suf.sums[3] + pre.sums[3], l.values[0])
    &&& cong(suf.sums[4] + pre.sums[4], l.values[1])
}

/// The claims on what the witness commits to.
pub open spec fn witness_claims(
    c: ConstraintClaims,
    l: LookupClaims,
    suf: LinearClaims,
) -> VerAcc {
    VerAcc {
        commits: seq![c.witness, l.count, l.ele_inv, l.tab_inv],
        points: seq![suf.point, l.right, l.left, l.right],
        values: seq![suf.z, l.count_value, l.ele_inv_value, l.tab_inv_value],
    }
}

/// The claims on the public polynomials.
pub open spec fn public_claims(
    vk: KeyView,
    l: LookupClaims,
    pre: LinearClaims,
    v: Seq<int>,
) -> VerAcc {
    VerAcc {
        commits: seq![vk.weights, vk.tp, vk.table_i, vk.table_j, vk.table_k, vk.table_one],
        points: seq![pre.point, l.left, l.right, l.right, l.right, l.right],
        values: v,
    }
}

/// The values of the public polynomials explain the claims of the sumchecks.
pub open spec fn public_explains(l: LookupClaims, pre: LinearClaims, v: Seq<int>) -> bool {
    &&& cong(pre.z, v[0])
    &&& cong(l.values[2], v[1])
    &&& cong(
        l.ele,
        (l.values[2] * l.r + l.values[1]) * l.r + l.values[0] + l.alpha * ones_prefix(
            l.left,
            l.len,
        ),
    )
    &&& cong(l.tab, ((v[4] * l.r) + v[3]) * l.r + v[2] + l.alpha * v[5])
}

/// The state after the whole check of a proof.
#[verifier::opaque]
pub open spec fn verify_stages(vk: KeyView, gamma: int, st: State) -> State {
    let (st1, c) = verify_constraints(st);
    let (st2, l) = verify_lookups(st1);
    let (st3, suf) = verify_linear(st2);
    let st4 = verify_batch(vk.vp, witness_claims(c, l, suf), st3);
    let (st5, pre) = verify_linear(st4);
    let st6 = require(st5, products_add_up(c, l, suf, pre));
    let (st7, e) = sparse_verify_of(
        vk.vp,
        vk.sup,
        vk.lens,
        vk.b_pre,
        c.point,
        l.left,
        suf.point,
        pre.point,
        gamma,
        st6,
    );
    let st8 = require(
        st7,
        cong(suf.m, joined_values(e, suf.r)) && cong(pre.m, joined_values(e.skip(5), pre.r)),
    );
    let (st9, v) = read_fs(st8, 6);
    let st10 = require(st9, public_explains(l, pre, v));
    verify_batch(vk.vp, public_claims(vk, l, pre, v), st10)
}

/// The state before a proof is read.
pub open spec fn unread(u: Seq<int>, f: Seq<int>, g: Seq<int>, ch: Seq<int>) -> State {
    State { u, f, g, ch, ok: true }
}

struct Constraints {
    witness: MkzgCommit,
    point: Vec<Fr>,
    products: Vec<Fr>,
}

impl View for Constraints {
    type V = ConstraintClaims;

    closed spec fn view(&self) -> ConstraintClaims {
        ConstraintClaims {
            witness: self.witness@,
            point: values(self.point@),
            products: values(self.products@),
        }
    }
}

struct Lookups {
    r: Fr,
    alpha: Fr,
    count: MkzgCommit,
    ele_inv: MkzgCommit,
    tab_inv: MkzgCommit,
    len: usize,
    left: Vec<Fr>,
    ele: Fr,
    ele_inv_value: Fr,
    values: Vec<Fr>,
    right: Vec<Fr>,
    tab: Fr,
    tab_inv_value: Fr,
    count_value: Fr,
}

impl View for Lookups {
    type V = LookupClaims;

    closed spec fn view(&self) -> LookupClaims {
        LookupClaims {
            r: self.r@,
            alpha: self.alpha@,
            count: self.count@,
            ele_inv: self.ele_inv@,
            tab_inv: self.tab_inv@,
            len: self.len as int,
            left: values(self.left@),
            ele: self.ele@,
            ele_inv_value: self.ele_inv_value@,
            values: values(self.values@),
            right: values(self.right@),
            tab: self.tab@,
            tab_inv_value: self.tab_inv_value@,
            count_value: self.count_value@,
        }
    }
}

struct Linear {
    sums: Vec<Fr>,
    r: Fr,
    point: Vec<Fr>,
    m: Fr,
    z: Fr,
}

impl View for Linear {
    type V = LinearClaims;

    closed spec fn view(&self) -> LinearClaims {
        LinearClaims {
            sums: values(self.sums@),
            r: self.r@,
            point: values(self.point@),
            m: self.m@,
            z: self.z@,
        }
    }
}

fn constraints_check(chan: &mut Channel) -> (out: Constraints)
    ensures
        (final(chan)@, out@) == verify_constraints(old(chan)@),
        out.products.len() == 3,
        final(chan).same_oracle(old(chan)),
{
    reveal(verify_constraints);
    let witness = chan.read_commit();
    let len: usize = chan.read_len(2);
    let nv: usize = log2_ceil_exec(len);
    proof {
        lemma_log2_ceil(len as int);
        lemma_log2_fits(len as int);
    }
    let req = chan.challenges(nv);
    let (point, y) = verifier_sumcheck(Fr::zero(), nv, 3, chan);
    let products = chan.read_fs(3);
    let eq = MlPoly::eval_eq_pref(&req, &point, len);
    chan.require(y == (products[0] * products[1] - products[2]) * eq);
    Constraints { witness, point, products }
}

fn lookups_check(chan: &mut Channel) -> (out: Lookups)
    ensures
        (final(chan)@, out@) == verify_lookups(old(chan)@),
        out.values.len() == 3,
        out.left.len() == log2_ceil(out.len as int),
        out.len <= crate::channel::longest(),
        final(chan).same_oracle(old(chan)),
{
    reveal(verify_lookups);
    let one = Fr::one();
    let r = chan.challenge();
    let alpha = chan.challenge();
    let count = chan.read_commit();
    let ele_inv = chan.read_commit();
    let tab_inv = chan.read_commit();
    let sum = chan.read_f();
    let len: usize = chan.read_len(2);
    let nv: usize = log2_ceil_exec(len);
    proof {
        lemma_log2_ceil(len as int);
        lemma_log2_fits(len as int);
    }
    let req = chan.challenges(nv);
    let rs = chan.challenge();
    let (left, y) = verifier_sumcheck(sum * rs, nv, 3, chan);
    let e = chan.read_fs(2);
    let eq = MlPoly::eval_eq_pref(&req, &left, len);
    chan.require(y == (e[0] * e[1] - one) * eq + rs * e[1]);
    let vals = chan.read_fs(3);
    let len2: usize = chan.read_len(2);
    let nv2: usize = log2_ceil_exec(len2);
    proof {
        lemma_log2_ceil(len2 as int);
        lemma_log2_fits(len2 as int);
    }
    let req2 = chan.challenges(nv2);
    let rt = chan.challenge();
    let (right, y2) = verifier_sumcheck(sum * rt, nv2, 3, chan);
    let t = chan.read_fs(3);
    let eq2 = MlPoly::eval_eq_pref(&req2, &right, len2);
    chan.require(y2 == (t[0] * t[1] - one) * eq2 + rt * t[1] * t[2]);
    Lookups {
        r,
        alpha,
        count,
        ele_inv,
        tab_inv,
        len,
        left,
        ele: e[0],
        ele_inv_value: e[1],
        values: vals,
        right,
        tab: t[0],
        tab_inv_value: t[1],
        count_value: t[2],
    }
}

fn joined_values_exec(v: &Vec<Fr>, from: usize, r: Fr) -> (out: Fr)
    requires
        from + 5 <= v.len(),
    ensures
        out@ == joined_values(values(v@).skip(from as int), r@),
{
    let ghost s = values(v@).skip(from as int);
    assert(s[0] == v[from as int]@ && s[1] == v[from + 1]@ && s[2] == v[from + 2]@ && s[3] == v[from
        + 3]@ && s[4] == v[from + 4]@);
    (((v[from + 4] * r + v[from + 3]) * r + v[from + 2]) * r + v[from + 1]) * r + v[from]
}

fn linear_check(chan: &mut Channel) -> (out: Linear)
    ensures
        (final(chan)@, out@) == verify_linear(old(chan)@),
        out.sums.len() == 5,
        final(chan).same_oracle(old(chan)),
{
    reveal(verify_linear);
    let sums = chan.read_fs(5);
    let r = chan.challenge();
    let mut nv: usize = chan.read_u();
    if nv > chan.proof.remaining_f() {
        chan.require(false);
        nv = 0;
    }
    assert(values(sums@).skip(0) =~= values(sums@));
    let (point, y) = verifier_sumcheck(joined_values_exec(&sums, 0, r), nv, 2, chan);
    let v = chan.read_fs(2);
    chan.require(y == v[0] * v[1]);
    Linear { sums, r, point, m: v[0], z: v[1] }
}

/// A verifier for one circuit.
pub struct Verifier {
    vk: VerifierKey,
}

impl Verifier {
    /// The key of the verifier.
    pub closed spec fn key(&self) -> VerifierKey {
        self.vk
    }

    /// The verifier with a key.
    pub fn new(vk: VerifierKey) -> (out: Verifier)
        ensures
            out.key() == vk,
    {
        Verifier { vk }
    }

    fn witness_check(
        &self,
        c: &Constraints,
        l: &Lookups,
        suf: &Linear,
        chan: &mut Channel,
    )
        ensures
            final(chan)@ == verify_batch(
                self.key()@.vp,
                witness_claims(c@, l@, suf@),
                old(chan)@,
            ),
            final(chan).same_oracle(old(chan)),
    {
        let mut acc = VerifierAcc::new();
        acc.push(c.witness.copy(), copied(&suf.point), suf.z);
        acc.push(l.count.copy(), copied(&l.right), l.count_value);
        acc.push(l.ele_inv.copy(), copied(&l.left), l.ele_inv_value);
        acc.push(l.tab_inv.copy(), copied(&l.right), l.tab_inv_value);
        let ghost w = witness_claims(c@, l@, suf@);
        assert(acc@.commits =~= w.commits);
        assert(acc@.points =~= w.points);
        assert(acc@.values =~= w.values);
        batch_check(&self.vk.kzg_vp, &acc, chan);
    }

    fn public_check(&self, l: &Lookups, pre: &Linear, v: &Vec<Fr>, chan: &mut Channel)
        requires
            v.len() == 6,
        ensures
            final(chan)@ == verify_batch(
                self.key()@.vp,
                public_claims(self.key()@, l@, pre@, values(v@)),
                old(chan)@,
            ),
            final(chan).same_oracle(old(chan)),
    {
        let vk = &self.vk;
        let mut acc = VerifierAcc::new();
        acc.push(vk.weights_commit.copy(), copied(&pre.point), v[0]);
        acc.push(vk.tp_commit.copy(), copied(&l.left), v[1]);
        acc.push(vk.table_i_commit.copy(), copied(&l.right), v[2]);
        acc.push(vk.table_j_commit.copy(), copied(&l.right), v[3]);
        acc.push(vk.table_k_commit.copy(), copied(&l.right), v[4]);
        acc.push(vk.table_one_commit.copy(), copied(&l.right), v[5]);
        let ghost w = public_claims(vk@, l@, pre@, values(v@));
        assert(acc@.commits =~= w.commits);
        assert(acc@.points =~= w.points);
        assert(acc@.values =~= w.values);
        batch_check(&vk.kzg_vp, &acc, chan);
    }

    #[verifier::rlimit(40)]
    fn run(&self, gamma: Fr, chan: &mut Channel)
        requires
            self.key().complete(),
        ensures
            final(chan)@ == verify_stages(self.key()@, gamma@, old(chan)@),
            final(chan).same_oracle(old(chan)),
    {
        reveal(verify_stages);
        let c = constraints_check(chan);
        let l = lookups_check(chan);
        let suf = linear_check(chan);
        self.witness_check(&c, &l, &suf, chan);
        let pre = linear_check(chan);
        chan.require(
            suf.sums[0] + pre.sums[0] == c.products[0] && suf.sums[1] + pre.sums[1]
                == c.products[1] && suf.sums[2] + pre.sums[2] == c.products[2] && suf.sums[3]
                + pre.sums[3] == l.values[0] && suf.sums[4] + pre.sums[4] == l.values[1],
        );
        let e = sparse_verify_with(
            &self.vk.kzg_vp,
            &self.vk.sparse_commits,
            &c.point,
            &l.left,
            &suf.point,
            &pre.point,
            gamma,
            chan,
        ).as_array();
        assert(values(e@).skip(0) =~= values(e@));
        let suf_m = joined_values_exec(&e, 0, suf.r);
        let pre_m = joined_values_exec(&e, 5, pre.r);
        chan.require(suf.m == suf_m && pre.m == pre_m);
        let v = chan.read_fs(6);
        proof {
            lemma_log2_ceil(l.len as int);
            lemma_log2_fits(l.len as int);
        }
        let ones = MlPoly::eval_ones_pref(l.left.as_slice(), l.len);
        chan.require(
            pre.z == v[0] && l.values[2] == v[1] && l.ele == (l.values[2] * l.r + l.values[1]) * l.r
                + l.values[0] + l.alpha * ones && l.tab == ((v[4] * l.r) + v[3]) * l.r + v[2]
                + l.alpha * v[5],
        );
        self.public_check(&l, &pre, &v, chan);
    }

    /// Whether a proof is right, with the challenges from the first one on.
    pub fn verify(&self, proof: Proof, gamma: Fr, ro: &mut RandomOracle) -> (out: bool)
        requires
            self.key().complete(),
        ensures
            ({
                let st = verify_stages(
                    self.key()@,
                    gamma@,
                    unread(proof@.u, proof@.f, proof@.g, old(ro).all()),
                );
                out == st.ok && final(ro)@ == st.ch
            }),
            final(ro).all() == old(ro).all(),
            final(ro).all_ints() == old(ro).all_ints(),
            final(ro).ints() == old(ro).all_ints(),
    {
        ro.restart();
        let mut inner = RandomOracle::new(Vec::new(), Vec::new());
        core::mem::swap(&mut inner, ro);
        let mut chan = Channel { proof, ro: inner, ok: true };
        self.run(gamma, &mut chan);
        core::mem::swap(&mut chan.ro, ro);
        chan.ok
    }
}

} // verus!
