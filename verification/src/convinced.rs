//! What an accepted proof shows as a whole.
use vstd::prelude::*;
use vstd::arithmetic::power2::*;
use crate::acceptance::{
    five_dots, five_values, holds_weights, lemma_matrix_values, lemma_mle_cong, lemma_mle_prints,
    lemma_mle_table,
};
use crate::channel::{State, read_fs, require};
use crate::circuit::{CircuitView, row_value, satisfied, table_has};
use crate::field::{cong, lemma_cong_ops, lemma_modulus};
use crate::gates::{constraint, logup_left, logup_right, product2};
use crate::interpolation::peval;
use crate::matrices::lemma_mle_rows;
use crate::multiplicities::{hidden, in_table, law_members, lookup_shares};
use crate::poly::{mle, ones_prefix};
use crate::preprocess::{KeyView, table_ones};
use crate::prover::{
    five_columns, joined, lookup_prints, provable, public_values, rows_value, table_prints,
};
use crate::refusal::{law_sparse_verified, law_verified, lemma_rounds_len};
use crate::shapes::{lemma_mle_ones, lemma_mle_shifted};
use crate::soundness::{
    Fractions, all_zero, cancelled, constraint_tables, constraints_start, defects, entry_products,
    five_errors, law_sound_constraints, law_sound_linear, law_sound_lookups, linear_start,
    lookups_middle, lookups_start, met, residues_left, vanished,
};
use crate::sparse::{circuit_fits, eq_table, shifted, sparse_values, total};
use crate::sparse_prover::points_fit;
use crate::sparse_verifier::{sparse_verify_of, verify_batch};
use crate::sumcheck::{lemma_log2_ceil, log2_ceil, same_len};
use crate::verify::{
    ConstraintClaims, LinearClaims, LookupClaims, joined_values, products_add_up, public_explains,
    verify_constraints, verify_linear, verify_lookups, verify_stages, witness_claims,
};

verus! {

/// The vectors that a proof is about: the one that satisfies the circuit, with the
/// parameters in front, and those of the lookups.
pub ghost struct Vectors {
    pub z: Seq<int>,
    pub ele_inv: Seq<int>,
    pub tab_inv: Seq<int>,
    pub count: Seq<int>,
}

/// What the check of a proof reads, stage by stage: the states before the stages, what
/// they leave, the values of the matrices and those of the public polynomials.
pub ghost struct Trail {
    pub st: State,
    pub st1: State,
    pub st2: State,
    pub st4: State,
    pub c: ConstraintClaims,
    pub l: LookupClaims,
    pub suf: LinearClaims,
    pub pre: LinearClaims,
    pub e: Seq<int>,
    pub v: Seq<int>,
}

/// What the check of a proof reads.
pub open spec fn trail_of(vk: KeyView, gamma: int, st: State) -> Trail {
    let (st1, c) = verify_constraints(st);
    let (st2, l) = verify_lookups(st1);
    let (st3, suf) = verify_linear(st2);
    let st4 = verify_batch(vk.vp, witness_claims(c, l, suf), st3);
    let (st5, pre) = verify_linear(st4);
    let st6 = require(st5, products_add_up(c, l, suf, pre));
    let (st7, e) = sparse_verify_of(
        vk.vp,
        vk.sup,
        vk.lens,
        vk.b_pre,
        c.point,
        l.left,
        suf.point,
        pre.point,
        gamma,
        st6,
    );
    Trail { st, st1, st2, st4, c, l, suf, pre, e, v: read_fs(st7, 6).1 }
}

/// The sizes that are read are those of a circuit.
pub open spec fn sizes_read(c: CircuitView, t: Trail) -> bool {
    &&& constraints_start(t.st).0 == c.a.len()
    &&& lookups_start(t.st1).1 == c.d.len()
    &&& lookups_middle(t.st1).0 == c.table.len()
    &&& linear_start(t.st2).2 == log2_ceil(c.z_len - c.weight_len)
    &&& linear_start(t.st4).2 == log2_ceil(c.weight_len)
}

/// The claims that are opened are right: those on the vectors, on the matrices and on the
/// public polynomials of a circuit.
pub open spec fn claims_right(c: CircuitView, w: Vectors, gamma: int, t: Trail) -> bool {
    let e = sparse_values(c, t.c.point, t.l.left, t.suf.point, t.pre.point, gamma);
    let v = public_values(c, t.pre.point, t.l.left, t.l.right);
    &&& cong(t.suf.z, mle(w.z.skip(c.weight_len), t.suf.point))
    &&& cong(t.l.ele_inv_value, mle(w.ele_inv, t.l.left))
    &&& cong(t.l.tab_inv_value, mle(w.tab_inv, t.l.right))
    &&& cong(t.l.count_value, mle(w.count, t.l.right))
    &&& forall|i: int| 0 <= i < 10 ==> cong(#[trigger] t.e[i], e[i])
    &&& forall|i: int| 0 <= i < 6 ==> cong(#[trigger] t.v[i], v[i])
}

/// The elements that are looked up and the rows of the table, each as one field element and
/// shifted, with what is said to be their inverses.
pub open spec fn fractions_of(
    c: CircuitView,
    w: Vectors,
    gamma: int,
    l: LookupClaims,
) -> Fractions {
    let d = rows_value(c.d, w.z, gamma);
    let e = rows_value(c.e, w.z, gamma);
    Fractions {
        ele: shifted(lookup_prints(c.tp, d, e, l.r), l.alpha),
        ele_inv: w.ele_inv,
        tab: shifted(table_prints(c.table, l.r), l.alpha),
        tab_inv: w.tab_inv,
        count: w.count,
    }
}

/// The check of the constraints slips.
pub open spec fn constraints_slip(c: CircuitView, z: Seq<int>, gamma: int, st: State) -> bool {
    let (len, req, start) = constraints_start(st);
    ||| vanished(residues_left(c, z, gamma), req)
    ||| met(
        0,
        log2_ceil(len) as int,
        3,
        start,
        constraint(),
        Seq::empty(),
        constraint_tables(c, z, gamma, req),
        len,
    )
}

/// The check of the lookups slips.
pub open spec fn lookups_slip(w: Fractions, st: State) -> bool {
    let (sum, len, req, coin, start) = lookups_start(st);
    let (len2, req2, coin2, start2) = lookups_middle(st);
    let weighed = entry_products(w.tab_inv, w.count);
    ||| vanished(defects(w.ele, w.ele_inv), req)
    ||| vanished(defects(w.tab, w.tab_inv), req2)
    ||| cancelled(mle(defects(w.ele, w.ele_inv), req), total(w.ele_inv), sum, coin)
    ||| cancelled(mle(defects(w.tab, w.tab_inv), req2), total(weighed), sum, coin2)
    ||| met(
        sum * coin,
        log2_ceil(len) as int,
        3,
        start,
        logup_left(),
        seq![coin],
        seq![w.ele, w.ele_inv, eq_table(req).take(len)],
        len,
    )
    ||| met(
        sum * coin2,
        log2_ceil(len2) as int,
        3,
        start2,
        logup_right(),
        seq![coin2],
        seq![w.tab, w.tab_inv, w.count, eq_table(req2).take(len2)],
        len2,
    )
}

/// The check of a joined product slips.
pub open spec fn linear_slips(m: Seq<Seq<int>>, z: Seq<int>, st: State) -> bool {
    let (sums, r, nv, start) = linear_start(st);
    let errors = five_errors(sums, five_dots(m, z));
    ||| !all_zero(errors) && cong(peval(errors, r), 0)
    ||| met(
        joined_values(sums, r),
        nv,
        2,
        start,
        product2(),
        Seq::empty(),
        seq![joined(m, r), z],
        z.len() as int,
    )
}

/// The challenge that shifts the elements hides one that is not in the table.
pub open spec fn element_hidden(w: Fractions, x: int) -> bool {
    exists|i: int|
        0 <= i < w.ele.len() && hidden(lookup_shares(w, x), #[trigger] w.ele[i] - x, x)
}

/// The challenge that makes one field element of three makes the same of a lookup and of
/// another row of the table.
pub open spec fn prints_meet(c: CircuitView, z: Seq<int>, gamma: int, r: int) -> bool {
    let d = rows_value(c.d, z, gamma);
    let e = rows_value(c.e, z, gamma);
    exists|i: int, k: int|
        0 <= i < c.d.len() && 0 <= k < c.table.len() && cong(
            #[trigger] lookup_prints(c.tp, d, e, r)[i],
            #[trigger] table_prints(c.table, r)[k],
        ) && !(cong(c.table[k].0, d[i]) && cong(c.table[k].1, e[i]) && cong(
            c.table[k].2,
            c.tp[i],
        ))
}

/// The points have the lengths of a circuit.
pub proof fn lemma_points(c: CircuitView, vk: KeyView, gamma: int, st: State)
    requires
        sizes_read(c, trail_of(vk, gamma, st)),
    ensures
        ({
            let t = trail_of(vk, gamma, st);
            &&& points_fit(c, t.c.point, t.l.left, t.suf.point, t.pre.point)
            &&& t.l.right.len() == log2_ceil(c.table.len() as int)
            &&& t.l.len == c.d.len()
            &&& t.suf.sums == linear_start(t.st2).0
            &&& t.pre.sums == linear_start(t.st4).0
        }),
{
    let t = trail_of(vk, gamma, st);
    assert(t.c.point.len() == log2_ceil(c.a.len() as int)) by {
        reveal(verify_constraints);
        let (len, req, start) = constraints_start(st);
        lemma_rounds_len(0, log2_ceil(len) as int, 3, start);
    }
    assert(t.l.left.len() == log2_ceil(c.d.len() as int) && t.l.right.len() == log2_ceil(
        c.table.len() as int,
    ) && t.l.len == c.d.len()) by {
        reveal(verify_lookups);
        let (sum, len, req, coin, start) = lookups_start(t.st1);
        let (len2, req2, coin2, start2) = lookups_middle(t.st1);
        lemma_rounds_len(sum * coin, log2_ceil(len) as int, 3, start);
        lemma_rounds_len(sum * coin2, log2_ceil(len2) as int, 3, start2);
    }
    assert(t.suf.point.len() == linear_start(t.st2).2 && t.suf.sums == linear_start(t.st2).0
        && t.pre.point.len() == linear_start(t.st4).2 && t.pre.sums == linear_start(t.st4).0) by {
        reveal(verify_linear);
        let (sums, r, nv, start) = linear_start(t.st2);
        let (sums4, r4, nv4, start4) = linear_start(t.st4);
        lemma_rounds_len(joined_values(sums, r), nv, 2, start);
        lemma_rounds_len(joined_values(sums4, r4), nv4, 2, start4);
    }
}

/// Five congruent values are joined to congruent ones.
proof fn lemma_joined_cong(u: Seq<int>, v: Seq<int>, r: int)
    requires
        forall|i: int| 0 <= i < 5 ==> cong(#[trigger] u[i], v[i]),
    ensures
        cong(joined_values(u, r), joined_values(v, r)),
{
    let a = u[4] * r + u[3];
    let b = v[4] * r + v[3];
    assert(cong(u[0], v[0]) && cong(u[1], v[1]) && cong(u[2], v[2]) && cong(u[3], v[3]) && cong(
        u[4],
        v[4],
    ));
    lemma_cong_ops(u[4], v[4], r, r);
    lemma_cong_ops(u[4] * r, v[4] * r, u[3], v[3]);
    lemma_cong_ops(a, b, r, r);
    lemma_cong_ops(a * r, b * r, u[2], v[2]);
    let a1 = a * r + u[2];
    let b1 = b * r + v[2];
    lemma_cong_ops(a1, b1, r, r);
    lemma_cong_ops(a1 * r, b1 * r, u[1], v[1]);
    let a2 = a1 * r + u[1];
    let b2 = b1 * r + v[1];
    lemma_cong_ops(a2, b2, r, r);
    lemma_cong_ops(a2 * r, b2 * r, u[0], v[0]);
}

/// Errors that are all zero.
proof fn lemma_no_errors(u: Seq<int>, v: Seq<int>)
    requires
        all_zero(five_errors(u, v)),
    ensures
        cong(u[0], v[0]),
        cong(u[1], v[1]),
        cong(u[2], v[2]),
        cong(u[3], v[3]),
        cong(u[4], v[4]),
{
    let e = five_errors(u, v);
    assert(cong(e[0], 0) && cong(e[1], 0) && cong(e[2], 0) && cong(e[3], 0) && cong(e[4], 0));
    lemma_cong_ops(u[0] - v[0], 0, v[0], v[0]);
    lemma_cong_ops(u[1] - v[1], 0, v[1], v[1]);
    lemma_cong_ops(u[2] - v[2], 0, v[2], v[2]);
    lemma_cong_ops(u[3] - v[3], 0, v[3], v[3]);
    lemma_cong_ops(u[4] - v[4], 0, v[4], v[4]);
}

/// The products of a proof are right, unless the check of one of them slips.
#[verifier::rlimit(40)]
proof fn lemma_products(c: CircuitView, vk: KeyView, w: Vectors, gamma: int, st: State)
    requires
        circuit_fits(c, 1),
        provable(c),
        w.z.len() == c.z_len,
        holds_weights(c, w.z),
        verify_stages(vk, gamma, st).ok,
        sizes_read(c, trail_of(vk, gamma, st)),
        claims_right(c, w, gamma, trail_of(vk, gamma, st)),
    ensures
        ({
            let t = trail_of(vk, gamma, st);
            let wl = c.weight_len;
            let msuf = five_columns(c, t.c.point, t.l.left, wl, c.z_len - wl, gamma);
            let mpre = five_columns(c, t.c.point, t.l.left, 0, wl, gamma);
            ||| linear_slips(msuf, w.z.skip(wl), t.st2)
            ||| linear_slips(mpre, w.z.take(wl), t.st4)
            ||| {
                &&& cong(t.c.products[0], mle(rows_value(c.a, w.z, gamma), t.c.point))
                &&& cong(t.c.products[1], mle(rows_value(c.b, w.z, gamma), t.c.point))
                &&& cong(t.c.products[2], mle(rows_value(c.c, w.z, gamma), t.c.point))
                &&& cong(t.l.values[0], mle(rows_value(c.d, w.z, gamma), t.l.left))
                &&& cong(t.l.values[1], mle(rows_value(c.e, w.z, gamma), t.l.left))
            }
        }),
{
    let t = trail_of(vk, gamma, st);
    let wl = c.weight_len;
    let z = w.z;
    let zs = z.skip(wl);
    let zp = z.take(wl);
    let msuf = five_columns(c, t.c.point, t.l.left, wl, c.z_len - wl, gamma);
    let mpre = five_columns(c, t.c.point, t.l.left, 0, wl, gamma);
    let vals = sparse_values(c, t.c.point, t.l.left, t.suf.point, t.pre.point, gamma);
    let pv = public_values(c, t.pre.point, t.l.left, t.l.right);
    law_verified(vk, gamma, st);
    lemma_points(c, vk, gamma, st);
    lemma_matrix_values(c, 1, t.c.point, t.l.left, t.suf.point, t.pre.point, gamma);
    lemma_log2_ceil(c.z_len - wl);
    lemma_log2_ceil(wl);
    lemma_log2_ceil(c.a.len() as int);
    lemma_log2_ceil(c.d.len() as int);
    assert(t.e.len() == 10) by {
        let st5 = verify_linear(t.st4).0;
        law_sparse_verified(
            vk.vp,
            vk.sup,
            vk.lens,
            vk.b_pre,
            t.c.point,
            t.l.left,
            t.suf.point,
            t.pre.point,
            gamma,
            require(st5, products_add_up(t.c, t.l, t.suf, t.pre)),
        );
    }
    let us = five_values(msuf, t.suf.point);
    let up = five_values(mpre, t.pre.point);
    assert forall|i: int| 0 <= i < 5 implies cong(#[trigger] t.e[i], us[i]) by {
        assert(us[i] == vals.take(5)[i]);
    }
    lemma_joined_cong(t.e, us, t.suf.r);
    assert forall|i: int| 0 <= i < 5 implies cong(#[trigger] t.e.skip(5)[i], up[i]) by {
        assert(up[i] == vals.skip(5)[i]);
        assert(cong(t.e[i + 5], vals[i + 5]));
    }
    lemma_joined_cong(t.e.skip(5), up, t.pre.r);
    assert(same_len(msuf, zs.len() as int)) by {
        assert forall|i: int| 0 <= i < msuf.len() implies (#[trigger] msuf[i]).len()
            == zs.len() by {}
    }
    assert(same_len(mpre, zp.len() as int)) by {
        assert forall|i: int| 0 <= i < mpre.len() implies (#[trigger] mpre[i]).len()
            == zp.len() by {}
    }
    assert(cong(t.pre.z, mle(zp, t.pre.point))) by {
        assert(cong(t.v[0], pv[0]));
        lemma_mle_cong(zp, c.weights, t.pre.point);
    }
    law_sound_linear(msuf, zs, t.st2);
    law_sound_linear(mpre, zp, t.st4);
    let ds = five_dots(msuf, zs);
    let dp = five_dots(mpre, zp);
    let s = t.suf.sums;
    let p = t.pre.sums;
    if all_zero(five_errors(s, ds)) && all_zero(five_errors(p, dp)) {
        lemma_no_errors(s, ds);
        lemma_no_errors(p, dp);
        lemma_mle_rows(c.a, z, wl, t.c.point, gamma);
        lemma_mle_rows(c.b, z, wl, t.c.point, gamma);
        lemma_mle_rows(c.c, z, wl, t.c.point, gamma);
        lemma_mle_rows(c.d, z, wl, t.l.left, gamma);
        lemma_mle_rows(c.e, z, wl, t.l.left, gamma);
        lemma_cong_ops(s[0], ds[0], p[0], dp[0]);
        lemma_cong_ops(s[1], ds[1], p[1], dp[1]);
        lemma_cong_ops(s[2], ds[2], p[2], dp[2]);
        lemma_cong_ops(s[3], ds[3], p[3], dp[3]);
        lemma_cong_ops(s[4], ds[4], p[4], dp[4]);
    }
}

/// The claims on the lookups are right, where the products are.
proof fn lemma_lookup_claims(c: CircuitView, vk: KeyView, w: Vectors, gamma: int, st: State)
    requires
        circuit_fits(c, 1),
        w.ele_inv.len() == c.d.len(),
        w.tab_inv.len() == c.table.len(),
        w.count.len() == c.table.len(),
        verify_stages(vk, gamma, st).ok,
        sizes_read(c, trail_of(vk, gamma, st)),
        claims_right(c, w, gamma, trail_of(vk, gamma, st)),
        ({
            let t = trail_of(vk, gamma, st);
            &&& cong(t.l.values[0], mle(rows_value(c.d, w.z, gamma), t.l.left))
            &&& cong(t.l.values[1], mle(rows_value(c.e, w.z, gamma), t.l.left))
        }),
    ensures
        ({
            let t = trail_of(vk, gamma, st);
            fractions_of(c, w, gamma, t.l).claimed(t.st1)
        }),
{
    let t = trail_of(vk, gamma, st);
    let l = t.l;
    let d = rows_value(c.d, w.z, gamma);
    let e = rows_value(c.e, w.z, gamma);
    let ele = lookup_prints(c.tp, d, e, l.r);
    let tab = table_prints(c.table, l.r);
    let pv = public_values(c, t.pre.point, l.left, l.right);
    law_verified(vk, gamma, st);
    lemma_points(c, vk, gamma, st);
    assert(cong(t.v[1], pv[1]) && cong(t.v[2], pv[2]) && cong(t.v[3], pv[3]) && cong(t.v[4], pv[4])
        && cong(t.v[5], pv[5]));
    assert(public_explains(l, t.pre, t.v));
    lemma_mle_prints(c.tp, d, e, l.r, l.left);
    lemma_mle_shifted(ele, l.alpha, l.left);
    lemma_mle_table(c.table, l.r, l.right);
    lemma_mle_shifted(tab, l.alpha, l.right);
    lemma_mle_ones(table_ones(c.table), l.right);
    let (x0, x1, x2) = (mle(d, l.left), mle(e, l.left), mle(c.tp, l.left));
    let k = l.alpha * ones_prefix(l.left, l.len);
    lemma_triple(l.values[0], l.values[1], l.values[2], x0, x1, x2, l.r, k, k);
    let o = pv[5];
    lemma_cong_ops(l.alpha, l.alpha, t.v[5], o);
    lemma_triple(
        t.v[2],
        t.v[3],
        t.v[4],
        pv[2],
        pv[3],
        pv[4],
        l.r,
        l.alpha * t.v[5],
        l.alpha * o,
    );
}

proof fn lemma_triple(
    a: int,
    b: int,
    c: int,
    x: int,
    y: int,
    z: int,
    r: int,
    k: int,
    m: int,
)
    requires
        cong(a, x),
        cong(b, y),
        cong(c, z),
        cong(k, m),
    ensures
        cong((c * r + b) * r + a + k, (z * r + y) * r + x + m),
{
    lemma_cong_ops(c, z, r, r);
    lemma_cong_ops(c * r, z * r, b, y);
    lemma_cong_ops(c * r + b, z * r + y, r, r);
    lemma_cong_ops((c * r + b) * r, (z * r + y) * r, a, x);
    lemma_cong_ops((c * r + b) * r + a, (z * r + y) * r + x, k, m);
}

/// A proof that is accepted, and whose claims on the vectors, the matrices and the public
/// polynomials are right, shows that the vector satisfies the circuit; unless one of its
/// checks slips: messages of a round that differ meet at the
/// challenge, a challenge makes what is left vanish or cancel, the challenge of the lookups
/// hides an element that is not in the table, or it makes the same of a lookup and of
/// another row.
pub proof fn law_convinced(c: CircuitView, vk: KeyView, w: Vectors, gamma: int, st: State)
    requires
        circuit_fits(c, 1),
        provable(c),
        w.z.len() == c.z_len,
        holds_weights(c, w.z),
        w.ele_inv.len() == c.d.len(),
        w.tab_inv.len() == c.table.len(),
        w.count.len() == c.table.len(),
        verify_stages(vk, gamma, st).ok,
        sizes_read(c, trail_of(vk, gamma, st)),
        claims_right(c, w, gamma, trail_of(vk, gamma, st)),
    ensures
        ({
            let t = trail_of(vk, gamma, st);
            let wl = c.weight_len;
            let msuf = five_columns(c, t.c.point, t.l.left, wl, c.z_len - wl, gamma);
            let mpre = five_columns(c, t.c.point, t.l.left, 0, wl, gamma);
            let f = fractions_of(c, w, gamma, t.l);
            ||| satisfied(c, w.z, gamma)
            ||| constraints_slip(c, w.z, gamma, t.st)
            ||| lookups_slip(f, t.st1)
            ||| element_hidden(f, t.l.alpha)
            ||| prints_meet(c, w.z, gamma, t.l.r)
            ||| linear_slips(msuf, w.z.skip(wl), t.st2)
            ||| linear_slips(mpre, w.z.take(wl), t.st4)
        }),
{
    let t = trail_of(vk, gamma, st);
    let wl = c.weight_len;
    let z = w.z;
    let msuf = five_columns(c, t.c.point, t.l.left, wl, c.z_len - wl, gamma);
    let mpre = five_columns(c, t.c.point, t.l.left, 0, wl, gamma);
    let f = fractions_of(c, w, gamma, t.l);
    law_verified(vk, gamma, st);
    lemma_products(c, vk, w, gamma, st);
    if !linear_slips(msuf, z.skip(wl), t.st2) && !linear_slips(mpre, z.take(wl), t.st4) {
        law_sound_constraints(c, z, gamma, st);
        lemma_lookup_claims(c, vk, w, gamma, st);
        law_sound_lookups(f, t.st1);
        if !constraints_slip(c, z, gamma, st) && !lookups_slip(f, t.st1) && !element_hidden(
            f,
            t.l.alpha,
        ) && !prints_meet(c, z, gamma, t.l.r) {
            lemma_modulus();
            law_members(f, t.l.alpha);
            lemma_satisfied(c, w, gamma, t.l);
        }
    }
}

/// Constraints that leave nothing, and elements that are in the table.
proof fn lemma_satisfied(c: CircuitView, w: Vectors, gamma: int, l: LookupClaims)
    requires
        circuit_fits(c, 1),
        w.z.len() == c.z_len,
        all_zero(residues_left(c, w.z, gamma)),
        !prints_meet(c, w.z, gamma, l.r),
        ({
            let f = fractions_of(c, w, gamma, l);
            forall|i: int| 0 <= i < f.ele.len() ==> in_table(f, #[trigger] f.ele[i])
        }),
    ensures
        satisfied(c, w.z, gamma),
{
    let z = w.z;
    let f = fractions_of(c, w, gamma, l);
    let d = rows_value(c.d, z, gamma);
    let e = rows_value(c.e, z, gamma);
    let ele = lookup_prints(c.tp, d, e, l.r);
    let tab = table_prints(c.table, l.r);
    assert forall|i: int| 0 <= i < c.a.len() implies cong(
        row_value(#[trigger] c.a[i], z, gamma) * row_value(c.b[i], z, gamma),
        row_value(c.c[i], z, gamma),
    ) by {
        assert(cong(residues_left(c, z, gamma)[i], 0));
        let y = row_value(c.c[i], z, gamma);
        lemma_cong_ops(residues_left(c, z, gamma)[i], 0, y, y);
    }
    assert forall|i: int| 0 <= i < c.d.len() implies table_has(
        c.table,
        row_value(#[trigger] c.d[i], z, gamma),
        row_value(c.e[i], z, gamma),
        c.tp[i],
    ) by {
        assert(in_table(f, f.ele[i]));
        let k = choose|k: int| 0 <= k < f.tab.len() && cong(#[trigger] f.tab[k], f.ele[i]);
        assert(f.tab[k] == tab[k] + l.alpha);
        assert(f.ele[i] == ele[i] + l.alpha);
        lemma_cong_ops(f.tab[k], f.ele[i], l.alpha, l.alpha);
        assert(cong(ele[i], tab[k]));
        assert(cong(c.table[k].0, d[i]) && cong(c.table[k].1, e[i]) && cong(
            c.table[k].2,
            c.tp[i],
        ));
        assert(d[i] == row_value(c.d[i], z, gamma));
        assert(e[i] == row_value(c.e[i], z, gamma));
    }
}

} // verus!
