//! What an accepted proof shows through the claims that its joint openings leave.
use vstd::prelude::*;
use vstd::arithmetic::power2::*;
use crate::acceptance::holds_weights;
use crate::batch_soundness::{
    batch_met, claim_errors, claims_shaped, joined_away, last_claim, law_sound_joint,
};
use crate::channel::{State, read_fs, read_list, read_points, require};
use crate::circuit::{CircuitView, satisfied};
use crate::convinced::{
    Vectors, claims_right, constraints_slip, element_hidden, fractions_of, law_convinced,
    lemma_points, linear_slips, lookups_slip, prints_meet, sizes_read, trail_of,
};
use crate::field::cong;
use crate::kzg::{VerParams, batch_gate, batch_tables, batch_weights, combine, max_len, powers};
use crate::matrix_soundness::{
    OpeningVectors, law_sound_opening, logs_match, opening_fits, opening_lengths, opening_polys,
    opening_run, opening_slip, values_right,
};
use crate::poly::mle;
use crate::preprocess::{KeyView, table_inputs, table_ones, table_outputs, table_tags};
use crate::prover::{five_columns, provable, public_values};
use crate::refusal::law_verified;
use crate::sparse::{circuit_fits, prefix_group, sparse_values, suffix_group, suffix_lens};
use crate::sparse_laws::prefix_free;
use crate::sparse_verifier::{VerAcc, sparse_verify_of, verify_batch};
use crate::verify::{products_add_up, public_claims, verify_linear, verify_stages, witness_claims};

verus! {

/// The claims have the shapes of polynomials, and the one claim that their joint opening
/// comes down to is right of the weighted sum of the polynomials.
pub open spec fn ends_right(polys: Seq<Seq<int>>, acc: VerAcc, st: State) -> bool {
    let (st2, sc) = read_list(read_points(st).0);
    let nv = max_len(acc.points, acc.points.len() as int);
    let rp = st2.ch.subrange(1, 1 + nv);
    let w = batch_weights(acc.points, nv, st2.ch[0], rp);
    &&& claims_shaped(polys, acc.points, acc.values)
    &&& cong(last_claim(acc.points, acc.values, sc, st2), mle(combine(polys, w), rp))
}

/// A challenge of a joint opening slips.
pub open spec fn joint_slip(polys: Seq<Seq<int>>, acc: VerAcc, st: State) -> bool {
    let (st2, sc) = read_list(read_points(st).0);
    let nv = max_len(acc.points, acc.points.len() as int);
    let n = polys.len() as int;
    ||| joined_away(claim_errors(polys, acc.points, acc.values), st2.ch[0])
    ||| batch_met(
        sc,
        0,
        nv,
        st2.ch.drop_first(),
        batch_gate(n, n),
        powers(st2.ch[0], n),
        batch_tables(polys, acc.points, nv),
        pow2(nv as nat) as int,
    )
}

/// An accepted joint opening that ends in a right claim started from right ones, unless a
/// challenge slips.
pub proof fn law_opened(vp: VerParams, polys: Seq<Seq<int>>, acc: VerAcc, st: State)
    requires
        0 < polys.len(),
        2 * polys.len() <= usize::MAX,
        verify_batch(vp, acc, st).ok,
        ends_right(polys, acc, st),
    ensures
        joint_slip(polys, acc, st) || forall|i: int|
            0 <= i < polys.len() ==> cong(acc.values[i], mle(#[trigger] polys[i], acc.points[i])),
{
    let (st1, points) = read_points(st);
    let (st2, sc) = read_list(st1);
    law_sound_joint(vp, polys, acc.points, acc.values, acc.commits, points, sc, st2);
}

/// The vectors that a proof commits to.
pub open spec fn witness_polys(c: CircuitView, w: Vectors) -> Seq<Seq<int>> {
    seq![w.z.skip(c.weight_len), w.count, w.ele_inv, w.tab_inv]
}

/// The vectors of a circuit that its key commits to.
pub open spec fn public_polys(c: CircuitView) -> Seq<Seq<int>> {
    seq![
        c.weights,
        c.tp,
        table_inputs(c.table),
        table_outputs(c.table),
        table_tags(c.table),
        table_ones(c.table),
    ]
}

/// The states before the three joint openings of a proof.
pub ghost struct Openings {
    pub witness: State,
    pub matrices: State,
    pub public: State,
}

/// The states before the joint opening of the vectors, before the opening of the matrices
/// and before the joint opening of the public polynomials.
pub open spec fn openings_of(vk: KeyView, gamma: int, st: State) -> Openings {
    let t = trail_of(vk, gamma, st);
    let matrices = require(
        verify_linear(t.st4).0,
        products_add_up(t.c, t.l, t.suf, t.pre),
    );
    let st7 = sparse_verify_of(
        vk.vp,
        vk.sup,
        vk.lens,
        vk.b_pre,
        t.c.point,
        t.l.left,
        t.suf.point,
        t.pre.point,
        gamma,
        matrices,
    ).0;
    Openings { witness: verify_linear(t.st2).0, matrices, public: read_fs(st7, 6).0 }
}

/// The key is for a circuit of these sizes.
pub open spec fn key_sizes(c: CircuitView, vk: KeyView) -> bool {
    &&& vk.lens == suffix_lens(c)
    &&& logs_match(vk.sup, suffix_group(c))
    &&& logs_match(vk.b_pre, prefix_group(c))
}

/// The three joint openings of a proof end in right claims.
pub open spec fn openings_right(
    c: CircuitView,
    vk: KeyView,
    w: Vectors,
    x: OpeningVectors,
    gamma: int,
    st: State,
) -> bool {
    let t = trail_of(vk, gamma, st);
    let o = openings_of(vk, gamma, st);
    let run = opening_run(
        vk.sup,
        vk.lens,
        vk.b_pre,
        t.c.point,
        t.l.left,
        t.suf.point,
        t.pre.point,
        gamma,
        o.matrices,
    );
    &&& ends_right(witness_polys(c, w), witness_claims(t.c, t.l, t.suf), o.witness)
    &&& opening_lengths(c, t.c.point, t.l.left, t.suf.point, t.pre.point, gamma, run)
    &&& ends_right(opening_polys(c, x), run.acc, run.joint)
    &&& ends_right(public_polys(c), public_claims(vk, t.l, t.pre, t.v), o.public)
}

/// A challenge of one of the three joint openings of a proof, or of the checks of the
/// matrices, slips.
pub open spec fn openings_slip(
    c: CircuitView,
    vk: KeyView,
    w: Vectors,
    x: OpeningVectors,
    gamma: int,
    st: State,
) -> bool {
    let t = trail_of(vk, gamma, st);
    let o = openings_of(vk, gamma, st);
    let run = opening_run(
        vk.sup,
        vk.lens,
        vk.b_pre,
        t.c.point,
        t.l.left,
        t.suf.point,
        t.pre.point,
        gamma,
        o.matrices,
    );
    ||| joint_slip(witness_polys(c, w), witness_claims(t.c, t.l, t.suf), o.witness)
    ||| opening_slip(c, t.c.point, t.l.left, t.suf.point, t.pre.point, gamma, run, x)
    ||| joint_slip(opening_polys(c, x), run.acc, run.joint)
    ||| joint_slip(public_polys(c), public_claims(vk, t.l, t.pre, t.v), o.public)
}

/// The vector opening: right claims on the vectors.
proof fn lemma_witness(c: CircuitView, vk: KeyView, w: Vectors, gamma: int, st: State)
    requires
        verify_stages(vk, gamma, st).ok,
        ({
            let t = trail_of(vk, gamma, st);
            let acc = witness_claims(t.c, t.l, t.suf);
            let s = openings_of(vk, gamma, st).witness;
            ends_right(witness_polys(c, w), acc, s) && !joint_slip(witness_polys(c, w), acc, s)
        }),
    ensures
        ({
            let t = trail_of(vk, gamma, st);
            &&& cong(t.suf.z, mle(w.z.skip(c.weight_len), t.suf.point))
            &&& cong(t.l.ele_inv_value, mle(w.ele_inv, t.l.left))
            &&& cong(t.l.tab_inv_value, mle(w.tab_inv, t.l.right))
            &&& cong(t.l.count_value, mle(w.count, t.l.right))
        }),
{
    let t = trail_of(vk, gamma, st);
    let acc = witness_claims(t.c, t.l, t.suf);
    let polys = witness_polys(c, w);
    law_verified(vk, gamma, st);
    law_opened(vk.vp, polys, acc, openings_of(vk, gamma, st).witness);
    assert(polys.len() == 4);
    assert(cong(acc.values[0], mle(polys[0], acc.points[0])));
    assert(cong(acc.values[1], mle(polys[1], acc.points[1])));
    assert(cong(acc.values[2], mle(polys[2], acc.points[2])));
    assert(cong(acc.values[3], mle(polys[3], acc.points[3])));
}

/// The public opening: right claims on the public polynomials.
proof fn lemma_public(c: CircuitView, vk: KeyView, gamma: int, st: State)
    requires
        verify_stages(vk, gamma, st).ok,
        ({
            let t = trail_of(vk, gamma, st);
            let acc = public_claims(vk, t.l, t.pre, t.v);
            let s = openings_of(vk, gamma, st).public;
            ends_right(public_polys(c), acc, s) && !joint_slip(public_polys(c), acc, s)
        }),
    ensures
        ({
            let t = trail_of(vk, gamma, st);
            let v = public_values(c, t.pre.point, t.l.left, t.l.right);
            forall|i: int| 0 <= i < 6 ==> cong(#[trigger] t.v[i], v[i])
        }),
{
    let t = trail_of(vk, gamma, st);
    let acc = public_claims(vk, t.l, t.pre, t.v);
    let polys = public_polys(c);
    law_verified(vk, gamma, st);
    law_opened(vk.vp, polys, acc, openings_of(vk, gamma, st).public);
    assert(polys.len() == 6);
    let v = public_values(c, t.pre.point, t.l.left, t.l.right);
    assert forall|i: int| 0 <= i < 6 implies cong(#[trigger] t.v[i], v[i]) by {
        assert(cong(acc.values[i], mle(polys[i], acc.points[i])));
        assert(i == 0 || i == 1 || i == 2 || i == 3 || i == 4 || i == 5);
        assert(v[i] == mle(polys[i], acc.points[i]));
    }
}

/// The opening of the matrices: right values of the matrices.
proof fn lemma_matrices(
    c: CircuitView,
    vk: KeyView,
    x: OpeningVectors,
    gamma: int,
    st: State,
)
    requires
        circuit_fits(c, 1),
        key_sizes(c, vk),
        opening_fits(c, x),
        verify_stages(vk, gamma, st).ok,
        sizes_read(c, trail_of(vk, gamma, st)),
        ({
            let t = trail_of(vk, gamma, st);
            let run = opening_run(
                vk.sup,
                vk.lens,
                vk.b_pre,
                t.c.point,
                t.l.left,
                t.suf.point,
                t.pre.point,
                gamma,
                openings_of(vk, gamma, st).matrices,
            );
            let e = sparse_values(c, t.c.point, t.l.left, t.suf.point, t.pre.point, gamma);
            &&& prefix_free(e)
            &&& opening_lengths(c, t.c.point, t.l.left, t.suf.point, t.pre.point, gamma, run)
            &&& ends_right(opening_polys(c, x), run.acc, run.joint)
            &&& !joint_slip(opening_polys(c, x), run.acc, run.joint)
            &&& !opening_slip(c, t.c.point, t.l.left, t.suf.point, t.pre.point, gamma, run, x)
        }),
    ensures
        ({
            let t = trail_of(vk, gamma, st);
            values_right(c, t.c.point, t.l.left, t.suf.point, t.pre.point, gamma, t.e)
        }),
{
    let t = trail_of(vk, gamma, st);
    let s = openings_of(vk, gamma, st).matrices;
    law_verified(vk, gamma, st);
    lemma_points(c, vk, gamma, st);
    law_sound_opening(
        vk.vp,
        vk.sup,
        vk.b_pre,
        c,
        1,
        t.c.point,
        t.l.left,
        t.suf.point,
        t.pre.point,
        gamma,
        s,
        x,
    );
}

/// A proof that is accepted under a key of the sizes of a circuit, and whose three joint
/// openings end in right claims on the vectors, the entries of the matrices and the public
/// polynomials, shows that the vector satisfies the circuit; unless one of its challenges
/// slips.
pub proof fn law_opened_convinces(
    c: CircuitView,
    vk: KeyView,
    w: Vectors,
    x: OpeningVectors,
    gamma: int,
    st: State,
)
    requires
        circuit_fits(c, 1),
        provable(c),
        w.z.len() == c.z_len,
        holds_weights(c, w.z),
        w.ele_inv.len() == c.d.len(),
        w.tab_inv.len() == c.table.len(),
        w.count.len() == c.table.len(),
        key_sizes(c, vk),
        opening_fits(c, x),
        verify_stages(vk, gamma, st).ok,
        sizes_read(c, trail_of(vk, gamma, st)),
        openings_right(c, vk, w, x, gamma, st),
        ({
            let t = trail_of(vk, gamma, st);
            prefix_free(sparse_values(c, t.c.point, t.l.left, t.suf.point, t.pre.point, gamma))
        }),
    ensures
        ({
            let t = trail_of(vk, gamma, st);
            let wl = c.weight_len;
            let msuf = five_columns(c, t.c.point, t.l.left, wl, c.z_len - wl, gamma);
            let mpre = five_columns(c, t.c.point, t.l.left, 0, wl, gamma);
            let f = fractions_of(c, w, gamma, t.l);
            ||| satisfied(c, w.z, gamma)
            ||| openings_slip(c, vk, w, x, gamma, st)
            ||| constraints_slip(c, w.z, gamma, t.st)
            ||| lookups_slip(f, t.st1)
            ||| element_hidden(f, t.l.alpha)
            ||| prints_meet(c, w.z, gamma, t.l.r)
            ||| linear_slips(msuf, w.z.skip(wl), t.st2)
            ||| linear_slips(mpre, w.z.take(wl), t.st4)
        }),
{
    if !openings_slip(c, vk, w, x, gamma, st) {
        lemma_witness(c, vk, w, gamma, st);
        lemma_public(c, vk, gamma, st);
        lemma_matrices(c, vk, x, gamma, st);
        assert(claims_right(c, w, gamma, trail_of(vk, gamma, st)));
        law_convinced(c, vk, w, gamma, st);
    }
}

} // verus!
