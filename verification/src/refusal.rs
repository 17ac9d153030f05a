//! What an accepted proof has passed.
use vstd::prelude::*;
use crate::channel::{State, challenge, read_fs, require};
use crate::field::cong;
use crate::kzg::{VerParams, batch_rounds};
use crate::preprocess::KeyView;
use crate::sparse::{GroupCommits, NUM_CLAIMS};
use crate::sparse_verifier::{
    ShapeView, VerAcc, sparse_verify_of, verify_batch, verify_memory, verify_prefix, verify_right,
    verify_suffix,
};
use crate::sumcheck::{extrapolate, off_nodes, verify_rounds};
use crate::verify::{
    joined_values, products_add_up, public_claims, public_explains, verify_constraints,
    verify_linear, verify_lookups, verify_stages, witness_claims,
};

verus! {

/// Rounds of a sumcheck do not mend what went wrong before them.
pub proof fn lemma_rounds_ok(y: int, nv: int, degree: int, st: State)
    ensures
        verify_rounds(y, nv, degree, st).2.ok ==> st.ok,
    decreases nv,
{
    if nv > 0 {
        let (st1, s) = read_fs(st, degree + 1);
        let st2 = require(st1, cong(s[0] + s[1], y));
        let (st3, x) = challenge(st2);
        let st4 = require(st3, off_nodes(degree, x));
        let next = if off_nodes(degree, x) {
            extrapolate(degree, s, x)
        } else {
            0
        };
        lemma_rounds_ok(next, nv - 1, degree, st4);
    }
}

/// The rounds give as many challenges as there are rounds.
pub proof fn lemma_rounds_len(y: int, nv: int, degree: int, st: State)
    requires
        0 <= nv,
    ensures
        verify_rounds(y, nv, degree, st).0.len() == nv,
    decreases nv,
{
    if nv > 0 {
        let (st1, s) = read_fs(st, degree + 1);
        let st2 = require(st1, cong(s[0] + s[1], y));
        let (st3, x) = challenge(st2);
        let st4 = require(st3, off_nodes(degree, x));
        let next = if off_nodes(degree, x) {
            extrapolate(degree, s, x)
        } else {
            0
        };
        lemma_rounds_len(next, nv - 1, degree, st4);
    }
}

pub proof fn lemma_batch_rounds_ok(sc: Seq<int>, i: int, nv: int, y: int, st: State)
    ensures
        batch_rounds(sc, i, nv, y, st).2.ok ==> st.ok,
    decreases nv - i,
{
    if i < nv {
        let s0 = crate::poly::at(sc, 3 * i);
        let s1 = crate::poly::at(sc, 3 * i + 1);
        let s2 = crate::poly::at(sc, 3 * i + 2);
        let st1 = require(st, cong(s0 + s1, y));
        let (st2, c) = crate::channel::challenge(st1);
        lemma_batch_rounds_ok(sc, i + 1, nv, crate::kzg::parabola(s0, s1, s2, c), st2);
    }
}

/// A joint opening does not mend what went wrong before it.
pub proof fn lemma_batch_ok(vp: VerParams, acc: VerAcc, st: State)
    ensures
        verify_batch(vp, acc, st).ok ==> st.ok,
{
    let (st1, proof) = crate::channel::read_points(st);
    let (st2, sc) = crate::channel::read_list(st1);
    let k = acc.points.len() as int;
    let nv = if k == 0 {
        1
    } else {
        crate::kzg::max_len(acc.points, k)
    };
    let (st3, r) = crate::channel::challenge(st2);
    let st4 = require(st3, sc.len() >= 3 * nv);
    lemma_batch_rounds_ok(sc, 0, nv as int, crate::kzg::horner(acc.values, r), st4);
}

pub proof fn lemma_right_ok(
    st: State,
    alpha: int,
    beta: int,
    claim: int,
    log_n: nat,
    shape: ShapeView,
    inv: Seq<int>,
    count: Seq<int>,
    acc: VerAcc,
)
    ensures
        verify_right(st, alpha, beta, claim, log_n, shape, inv, count, acc).0.ok ==> st.ok,
{
    reveal(verify_right);
    let (st1, len) = crate::channel::read_len(st, 0);
    let nv = crate::sumcheck::log2_ceil(len) as int;
    let st2 = require(st1, nv == log_n);
    let (st3, req) = crate::channel::challenges(st2, nv);
    let (st4, r) = crate::channel::challenge(st3);
    lemma_rounds_ok(claim * r, nv, 3, st4);
}

pub proof fn lemma_memory_ok(
    g: GroupCommits,
    e_row: Seq<int>,
    e_col: Seq<int>,
    e_pow: Seq<int>,
    tr: ShapeView,
    tc: ShapeView,
    tg: ShapeView,
    st: State,
    acc: VerAcc,
)
    ensures
        verify_memory(g, e_row, e_col, e_pow, tr, tc, tg, st, acc).0.ok ==> st.ok,
{
    reveal(verify_memory);
    assert forall|y: int, nv: int, s: State| #[trigger]
        verify_rounds(y, nv, 3, s).2.ok implies s.ok by {
        lemma_rounds_ok(y, nv, 3, s);
    }
    assert forall|
        s: State,
        alpha: int,
        beta: int,
        claim: int,
        log_n: nat,
        shape: ShapeView,
        inv: Seq<int>,
        count: Seq<int>,
        a: VerAcc,
    | #[trigger]
        verify_right(s, alpha, beta, claim, log_n, shape, inv, count, a).0.ok implies s.ok by {
        lemma_right_ok(s, alpha, beta, claim, log_n, shape, inv, count, a);
    }
}

pub proof fn lemma_suffix_ok(
    g: GroupCommits,
    lens: Seq<int>,
    abc: Seq<int>,
    de: Seq<int>,
    col_point: Seq<int>,
    gamma: int,
    claims: Seq<int>,
    st: State,
    acc: VerAcc,
)
    ensures
        verify_suffix(g, lens, abc, de, col_point, gamma, claims, st, acc).0.ok ==> st.ok,
{
    reveal(verify_suffix);
    assert forall|y: int, nv: int, d: int, s: State| #[trigger]
        verify_rounds(y, nv, d, s).2.ok implies s.ok by {
        lemma_rounds_ok(y, nv, d, s);
    }
    assert forall|
        e_row: Seq<int>,
        e_col: Seq<int>,
        e_pow: Seq<int>,
        tr: ShapeView,
        tc: ShapeView,
        tg: ShapeView,
        s: State,
        a: VerAcc,
    | #[trigger]
        verify_memory(g, e_row, e_col, e_pow, tr, tc, tg, s, a).0.ok implies s.ok by {
        lemma_memory_ok(g, e_row, e_col, e_pow, tr, tc, tg, s, a);
    }
}

pub proof fn lemma_prefix_ok(
    g: GroupCommits,
    row_point: Seq<int>,
    col_point: Seq<int>,
    gamma: int,
    claim: int,
    st: State,
    acc: VerAcc,
)
    ensures
        verify_prefix(g, row_point, col_point, gamma, claim, st, acc).0.ok ==> st.ok,
{
    reveal(verify_prefix);
    assert forall|y: int, nv: int, d: int, s: State| #[trigger]
        verify_rounds(y, nv, d, s).2.ok implies s.ok by {
        lemma_rounds_ok(y, nv, d, s);
    }
    assert forall|
        e_row: Seq<int>,
        e_col: Seq<int>,
        e_pow: Seq<int>,
        tr: ShapeView,
        tc: ShapeView,
        tg: ShapeView,
        s: State,
        a: VerAcc,
    | #[trigger]
        verify_memory(g, e_row, e_col, e_pow, tr, tc, tg, s, a).0.ok implies s.ok by {
        lemma_memory_ok(g, e_row, e_col, e_pow, tr, tc, tg, s, a);
    }
}

/// An opening of the matrices of a circuit is accepted only if nothing went wrong before
/// it, and only if the first, third, fourth and fifth matrices are said to be zero on the
/// columns of the parameters.
pub proof fn law_sparse_verified(
    vp: VerParams,
    g: GroupCommits,
    lens: Seq<int>,
    b: GroupCommits,
    abc: Seq<int>,
    de: Seq<int>,
    suf: Seq<int>,
    pre: Seq<int>,
    gamma: int,
    st: State,
)
    ensures
        ({
            let (end, v) = sparse_verify_of(vp, g, lens, b, abc, de, suf, pre, gamma, st);
            end.ok ==> st.ok && st.f.len() >= NUM_CLAIMS && v == st.f.take(NUM_CLAIMS as int)
                && cong(v[5], 0) && cong(v[7], 0) && cong(v[8], 0) && cong(v[9], 0)
        }),
{
    reveal(sparse_verify_of);
    let (st1, v) = read_fs(st, NUM_CLAIMS as int);
    let st2 = require(
        st1,
        cong(v[5], 0) && cong(v[7], 0) && cong(v[8], 0) && cong(v[9], 0),
    );
    let none = VerAcc { commits: Seq::empty(), points: Seq::empty(), values: Seq::empty() };
    let (st3, a1) = verify_suffix(g, lens, abc, de, suf, gamma, v.take(5), st2, none);
    let (st4, a2) = verify_prefix(b, abc, pre, gamma, v[6], st3, a1);
    lemma_suffix_ok(g, lens, abc, de, suf, gamma, v.take(5), st2, none);
    lemma_prefix_ok(b, abc, pre, gamma, v[6], st3, a1);
    lemma_batch_ok(vp, a2, st4);
}

proof fn lemma_constraints_ok(st: State)
    ensures
        verify_constraints(st).0.ok ==> st.ok,
{
    reveal(verify_constraints);
    assert forall|y: int, nv: int, d: int, s: State| #[trigger]
        verify_rounds(y, nv, d, s).2.ok implies s.ok by {
        lemma_rounds_ok(y, nv, d, s);
    }
}

proof fn lemma_lookups_ok(st: State)
    ensures
        verify_lookups(st).0.ok ==> st.ok,
{
    reveal(verify_lookups);
    assert forall|y: int, nv: int, d: int, s: State| #[trigger]
        verify_rounds(y, nv, d, s).2.ok implies s.ok by {
        lemma_rounds_ok(y, nv, d, s);
    }
}

proof fn lemma_linear_ok(st: State)
    ensures
        verify_linear(st).0.ok ==> st.ok,
{
    reveal(verify_linear);
    assert forall|y: int, nv: int, d: int, s: State| #[trigger]
        verify_rounds(y, nv, d, s).2.ok implies s.ok by {
        lemma_rounds_ok(y, nv, d, s);
    }
}

/// A proof is accepted only if every stage of its check was passed: the two joint
/// openings are accepted, the products on the two parts of the vector add up to those of
/// the constraints and the lookups, the values of the matrices explain the joined
/// products, and the public values explain the claims on the lookups.
pub proof fn law_verified(vk: KeyView, gamma: int, st: State)
    requires
        verify_stages(vk, gamma, st).ok,
    ensures
        st.ok,
        ({
            let (st1, c) = verify_constraints(st);
            let (st2, l) = verify_lookups(st1);
            let (st3, suf) = verify_linear(st2);
            let st4 = verify_batch(vk.vp, witness_claims(c, l, suf), st3);
            let (st5, pre) = verify_linear(st4);
            let st6 = require(st5, products_add_up(c, l, suf, pre));
            let (st7, e) = sparse_verify_of(
                vk.vp,
                vk.sup,
                vk.lens,
                vk.b_pre,
                c.point,
                l.left,
                suf.point,
                pre.point,
                gamma,
                st6,
            );
            let (st9, v) = read_fs(st7, 6);
            &&& st1.ok
            &&& st2.ok
            &&& st3.ok
            &&& st4.ok
            &&& st5.ok
            &&& products_add_up(c, l, suf, pre)
            &&& st7.ok
            &&& cong(suf.m, joined_values(e, suf.r))
            &&& cong(pre.m, joined_values(e.skip(5), pre.r))
            &&& public_explains(l, pre, v)
            &&& verify_batch(vk.vp, public_claims(vk, l, pre, v), st9).ok
        }),
{
    reveal(verify_stages);
    let (st1, c) = verify_constraints(st);
    let (st2, l) = verify_lookups(st1);
    let (st3, suf) = verify_linear(st2);
    let w = witness_claims(c, l, suf);
    let st4 = verify_batch(vk.vp, w, st3);
    let (st5, pre) = verify_linear(st4);
    let st6 = require(st5, products_add_up(c, l, suf, pre));
    let (st7, e) = sparse_verify_of(
        vk.vp,
        vk.sup,
        vk.lens,
        vk.b_pre,
        c.point,
        l.left,
        suf.point,
        pre.point,
        gamma,
        st6,
    );
    let holds = cong(suf.m, joined_values(e, suf.r)) && cong(
        pre.m,
        joined_values(e.skip(5), pre.r),
    );
    let st8 = require(st7, holds);
    let (st9, v) = read_fs(st8, 6);
    let st10 = require(st9, public_explains(l, pre, v));
    lemma_batch_ok(vk.vp, public_claims(vk, l, pre, v), st10);
    law_sparse_verified(
        vk.vp,
        vk.sup,
        vk.lens,
        vk.b_pre,
        c.point,
        l.left,
        suf.point,
        pre.point,
        gamma,
        st6,
    );
    lemma_linear_ok(st4);
    lemma_batch_ok(vk.vp, w, st3);
    lemma_linear_ok(st2);
    lemma_lookups_ok(st1);
    lemma_constraints_ok(st);
    assert(st8 == st7);
    assert(st10 == st9);
}

} // verus!
