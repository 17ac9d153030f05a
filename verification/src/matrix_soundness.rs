//! Accepted openings of the matrices of a circuit give their values.
use vstd::prelude::*;
use vstd::arithmetic::power::*;
use vstd::arithmetic::power2::*;
use crate::batch_soundness::{
    batch_met, claim_errors, claims_shaped, joined_away, last_claim, law_sound_joint,
};
use crate::channel::{State, challenge, read_fs, read_len, read_list, read_points, require};
use crate::circuit::CircuitView;
use crate::field::{cong, lemma_cong_ops};
use crate::gates::{lemma_gate_degrees, lemma_gate_values, product3, product4};
use crate::interpolation::lemma_sum_cong;
use crate::kzg::{VerParams, batch_gate, batch_tables, batch_weights, combine, max_len, powers};
use crate::logup::lemma_vanishing;
use crate::poly::{at, eq_prefix, min, mle};
use crate::refusal::{
    lemma_batch_ok, lemma_memory_ok, lemma_prefix_ok, lemma_rounds_len, lemma_rounds_ok,
    lemma_suffix_ok,
};
use crate::replay::{row_at, row_value, whole_sum};
use crate::shapes::{lemma_mle_eq_take, lemma_mle_weights, lemma_slice_weights_len};
use crate::soundness::{law_sound_rounds, met};
use crate::sparse::{
    GroupCommits, GroupView, all_suffix_quads, circuit_fits, entry_weights, eq_table, gamma_table,
    lemma_prefix_group, lemma_suffix_group, pointwise, pow_log, prefix_group, quads, reads,
    row_base_log, row_table, sparse_values, suffix_group, suffix_lens, weight_at,
};
use crate::sparse_laws::{
    lemma_group_sum, lemma_prefix_sum, lemma_shape_eq, lemma_shape_powers, lemma_shape_rows,
    lemma_suffix_slices, lemma_suffix_sum, lemma_weighted_group, lemma_weighted_value, prefix_free,
};
use crate::sparse_prover::points_fit;
use crate::sparse_soundness::{
    MemoryVectors, Tables, claims_right, law_sound_memory, memory_lengths, memory_polys,
    memory_slip, vectors_fit,
};
use crate::sparse_verifier::{
    ShapeView, VerAcc, sparse_verify_of, ver_push, verify_batch, verify_memory, verify_prefix,
    verify_suffix, weighted,
};
use crate::sumcheck::{gate_fits, lemma_log2_ceil, log2_ceil, same_len, values_at, verify_rounds};
use crate::sums::{lemma_sum_eq, lemma_sum_sub, sum_to};

verus! {

/// What the check of the values on the suffix columns reads and draws before it comes to
/// the reads.
pub ghost struct SuffixRun {
    pub e_row: Seq<int>,
    pub e_col: Seq<int>,
    pub e_pow: Seq<int>,
    pub r: int,
    pub v: Seq<int>,
    pub len: int,
    pub start: State,
    pub first: Seq<int>,
    pub x: Seq<int>,
    pub len2: int,
    pub start2: State,
    pub second: Seq<int>,
    pub t: Seq<int>,
    pub end: State,
}

/// What the check of the values on the suffix columns reads and draws before it comes to
/// the reads.
pub open spec fn suffix_run(
    log_col: nat,
    lens: Seq<int>,
    col_point: Seq<int>,
    claims: Seq<int>,
    st: State,
) -> SuffixRun {
    let st0 = require(st, col_point.len() == log_col && claims.len() == lens.len());
    let (st1, e_row) = read_points(st0);
    let (st2, e_col) = read_points(st1);
    let (st3, e_pow) = read_points(st2);
    let (st4, r) = challenge(st3);
    let (st5, v) = read_points(st4);
    let (st6, len) = read_len(st5, 0);
    let nv = log2_ceil(len) as int;
    let (p1, y1, st7) = verify_rounds(weighted(claims, r), nv, 4, st6);
    let (st8, x) = read_fs(st7, 4);
    let st9 = require(st8, cong(y1, x[0] * x[1] * x[2] * x[3]));
    let (st10, len2) = read_len(st9, 0);
    let st11 = require(st10, log2_ceil(len2) == nv);
    let (p2, y2, st12) = verify_rounds(x[3], nv, 3, st11);
    let (st13, t) = read_fs(st12, 3);
    let st14 = require(
        st13,
        cong(t[0], eq_prefix(p1, p2, min(len2, pow2(nv as nat) as int))),
    );
    let st15 = require(st14, cong(t[1], weight_at(p2, lens, r, lens.len() as int)));
    let st16 = require(st15, cong(y2, t[0] * t[1] * t[2]));
    SuffixRun {
        e_row,
        e_col,
        e_pow,
        r,
        v,
        len,
        start: st6,
        first: p1,
        x,
        len2,
        start2: st11,
        second: p2,
        t,
        end: st16,
    }
}

/// The claims of the check of the values on the suffix columns before it comes to the reads.
pub open spec fn suffix_claims(g: GroupCommits, m: SuffixRun, acc: VerAcc) -> VerAcc {
    let a1 = ver_push(
        ver_push(ver_push(acc, m.e_row, m.first, m.x[0]), m.e_col, m.first, m.x[1]),
        m.e_pow,
        m.first,
        m.x[2],
    );
    ver_push(ver_push(a1, m.v, m.first, m.x[3]), g.val, m.second, m.t[2])
}

/// The tables of the check of the values on the suffix columns.
pub open spec fn suffix_tables(
    c: CircuitView,
    abc: Seq<int>,
    de: Seq<int>,
    suf: Seq<int>,
    gamma: int,
) -> Tables {
    Tables {
        row_shape: ShapeView::Rows(abc, de),
        col_shape: ShapeView::Eq(suf),
        pow_shape: ShapeView::Powers(gamma),
        row: row_table(abc, de, row_base_log(c)),
        col: eq_table(suf),
        pow: gamma_table(gamma, pow_log(c)),
    }
}

/// Claims that are not all right add up as the right ones do, weighted by the powers of a
/// challenge.
pub open spec fn weighed_away(claims: Seq<int>, right: Seq<int>, r: int) -> bool {
    &&& cong(
        sum_to(claims.len() as int, |i: int| pow(r, i as nat) * (claims[i] - right[i])),
        0,
    )
    &&& !(forall|i: int| 0 <= i < claims.len() ==> cong(#[trigger] claims[i], right[i]))
}

/// The vectors for the check of the values on the suffix columns, and what they claim to
/// be weighted entries.
pub ghost struct SuffixVectors {
    pub memory: MemoryVectors,
    pub v: Seq<int>,
}

/// The polynomials that the check of the values on the suffix columns leaves claims on.
pub open spec fn suffix_polys(g: GroupView, x: SuffixVectors) -> Seq<Seq<int>> {
    seq![x.memory.e_row, x.memory.e_col, x.memory.e_pow, x.v, g.val] + memory_polys(g, x.memory)
}

/// A challenge of the check of the values on the suffix columns slips: the one that weighs
/// the matrices, one of a round, or one of the check of the reads.
pub open spec fn suffix_slip(
    c: CircuitView,
    abc: Seq<int>,
    de: Seq<int>,
    suf: Seq<int>,
    pre: Seq<int>,
    gamma: int,
    claims: Seq<int>,
    st: State,
    x: MemoryVectors,
) -> bool {
    let g = suffix_group(c);
    let lens = suffix_lens(c);
    let m = suffix_run(g.log_col, lens, suf, claims, st);
    let n = g.row.len() as int;
    let nv = log2_ceil(n) as int;
    let w = entry_weights(lens, m.r, n);
    ||| weighed_away(claims, sparse_values(c, abc, de, suf, pre, gamma).take(5), m.r)
    ||| met(
        weighted(claims, m.r),
        nv,
        4,
        m.start,
        product4(),
        Seq::empty(),
        seq![x.e_row, x.e_col, x.e_pow, pointwise(g.val, w)],
        n,
    )
    ||| met(
        m.x[3],
        nv,
        3,
        m.start2,
        product3(),
        Seq::empty(),
        seq![eq_table(m.first).take(n), w, g.val],
        n,
    )
    ||| memory_slip(m.end, g, suffix_tables(c, abc, de, suf, gamma), x)
}

/// The lengths that the check of the values on the suffix columns reads are those of the
/// entries and the tables.
pub open spec fn suffix_lengths(
    c: CircuitView,
    abc: Seq<int>,
    de: Seq<int>,
    suf: Seq<int>,
    gamma: int,
    claims: Seq<int>,
    st: State,
) -> bool {
    let g = suffix_group(c);
    let m = suffix_run(g.log_col, suffix_lens(c), suf, claims, st);
    &&& m.len == g.row.len()
    &&& m.len2 == g.row.len()
    &&& memory_lengths(m.end, g, suffix_tables(c, abc, de, suf, gamma))
}

/// Vectors that hold the same elements as others have the same product sum.
proof fn lemma_products_cong(
    a: Seq<int>,
    b: Seq<int>,
    d: Seq<int>,
    e: Seq<int>,
    u: Seq<int>,
    v: Seq<int>,
    w: Seq<int>,
)
    requires
        a.len() == b.len(),
        a.len() == d.len(),
        a.len() == e.len(),
        a.len() == u.len(),
        a.len() == v.len(),
        a.len() == w.len(),
        forall|i: int| 0 <= i < a.len() ==> cong(#[trigger] a[i], u[i]),
        forall|i: int| 0 <= i < a.len() ==> cong(#[trigger] b[i], v[i]),
        forall|i: int| 0 <= i < a.len() ==> cong(#[trigger] d[i], w[i]),
    ensures
        cong(
            whole_sum(product4(), Seq::empty(), seq![a, b, d, e], a.len() as int),
            whole_sum(product4(), Seq::empty(), seq![u, v, w, e], a.len() as int),
        ),
{
    let n = a.len() as int;
    let none = Seq::<int>::empty();
    let s = seq![a, b, d, e];
    let t = seq![u, v, w, e];
    let f = |j: int| row_value(product4(), none, s, j);
    let g = |j: int| row_value(product4(), none, t, j);
    assert forall|j: int| 0 <= j < n implies cong(#[trigger] f(j), g(j)) by {
        let x = row_at(s, j);
        let y = row_at(t, j);
        lemma_gate_values(x, none);
        lemma_gate_values(y, none);
        assert(x[0] == at(s[0], j) && x[1] == at(s[1], j));
        assert(x[2] == at(s[2], j) && x[3] == at(s[3], j));
        assert(y[0] == at(t[0], j) && y[1] == at(t[1], j));
        assert(y[2] == at(t[2], j) && y[3] == at(t[3], j));
        assert(cong(a[j], u[j]) && cong(b[j], v[j]) && cong(d[j], w[j]));
        lemma_cong_ops(a[j], u[j], b[j], v[j]);
        lemma_cong_ops(a[j] * b[j], u[j] * v[j], d[j], w[j]);
        lemma_cong_ops(a[j] * b[j] * d[j], u[j] * v[j] * w[j], e[j], e[j]);
    }
    lemma_sum_cong(n, f, g);
}

/// A sumcheck of a product of four vectors is sound.
proof fn lemma_four(
    a: Seq<int>,
    b: Seq<int>,
    d: Seq<int>,
    e: Seq<int>,
    claim: int,
    x: Seq<int>,
    st: State,
)
    requires
        0 < a.len(),
        a.len() == b.len(),
        a.len() == d.len(),
        a.len() == e.len(),
        ({
            let (p, y, end) = verify_rounds(claim, log2_ceil(a.len() as int) as int, 4, st);
            &&& end.ok
            &&& cong(y, x[0] * x[1] * x[2] * x[3])
            &&& cong(x[0], mle(a, p))
            &&& cong(x[1], mle(b, p))
            &&& cong(x[2], mle(d, p))
            &&& cong(x[3], mle(e, p))
        }),
    ensures
        ({
            let none = Seq::<int>::empty();
            let n = a.len() as int;
            ||| cong(claim, whole_sum(product4(), none, seq![a, b, d, e], n))
            ||| met(
                claim,
                log2_ceil(n) as int,
                4,
                st,
                product4(),
                none,
                seq![a, b, d, e],
                n,
            )
        }),
{
    let none = Seq::<int>::empty();
    let n = a.len() as int;
    let nv = log2_ceil(n) as int;
    let tabs = seq![a, b, d, e];
    let (p, y, end) = verify_rounds(claim, nv, 4, st);
    lemma_log2_ceil(n);
    lemma_gate_degrees();
    reveal_with_fuel(gate_fits, 6);
    lemma_vanishing(none);
    assert(same_len(tabs, n)) by {
        assert forall|i: int| 0 <= i < tabs.len() implies (#[trigger] tabs[i]).len() == n by {}
    }
    let u = values_at(tabs, p);
    lemma_gate_values(u, none);
    assert(u[0] == mle(tabs[0], p) && u[1] == mle(tabs[1], p));
    assert(u[2] == mle(tabs[2], p) && u[3] == mle(tabs[3], p));
    lemma_cong_ops(x[0], u[0], x[1], u[1]);
    lemma_cong_ops(x[0] * x[1], u[0] * u[1], x[2], u[2]);
    lemma_cong_ops(x[0] * x[1] * x[2], u[0] * u[1] * u[2], x[3], u[3]);
    law_sound_rounds(product4(), none, tabs, n, 4, nv, claim, st);
}

/// A sumcheck of a product of three vectors is sound.
proof fn lemma_three(a: Seq<int>, b: Seq<int>, d: Seq<int>, claim: int, x: Seq<int>, st: State)
    requires
        0 < a.len(),
        a.len() == b.len(),
        a.len() == d.len(),
        ({
            let (p, y, end) = verify_rounds(claim, log2_ceil(a.len() as int) as int, 3, st);
            &&& end.ok
            &&& cong(y, x[0] * x[1] * x[2])
            &&& cong(x[0], mle(a, p))
            &&& cong(x[1], mle(b, p))
            &&& cong(x[2], mle(d, p))
        }),
    ensures
        ({
            let none = Seq::<int>::empty();
            let n = a.len() as int;
            ||| cong(claim, whole_sum(product3(), none, seq![a, b, d], n))
            ||| met(claim, log2_ceil(n) as int, 3, st, product3(), none, seq![a, b, d], n)
        }),
{
    let none = Seq::<int>::empty();
    let n = a.len() as int;
    let nv = log2_ceil(n) as int;
    let tabs = seq![a, b, d];
    let (p, y, end) = verify_rounds(claim, nv, 3, st);
    lemma_log2_ceil(n);
    lemma_gate_degrees();
    reveal_with_fuel(gate_fits, 6);
    lemma_vanishing(none);
    assert(same_len(tabs, n)) by {
        assert forall|i: int| 0 <= i < tabs.len() implies (#[trigger] tabs[i]).len() == n by {}
    }
    let u = values_at(tabs, p);
    lemma_gate_values(u, none);
    assert(u[0] == mle(tabs[0], p) && u[1] == mle(tabs[1], p) && u[2] == mle(tabs[2], p));
    lemma_cong_ops(x[0], u[0], x[1], u[1]);
    lemma_cong_ops(x[0] * x[1], u[0] * u[1], x[2], u[2]);
    law_sound_rounds(product3(), none, tabs, n, 3, nv, claim, st);
}

/// Where weighted claims add up as the right ones do, they are right or the challenge slips.
proof fn lemma_unweigh(claims: Seq<int>, right: Seq<int>, r: int)
    requires
        claims.len() == right.len(),
        cong(weighted(claims, r), weighted(right, r)),
    ensures
        (forall|i: int| 0 <= i < claims.len() ==> cong(#[trigger] claims[i], right[i]))
            || weighed_away(claims, right, r),
{
    let n = claims.len() as int;
    let a = |i: int| pow(r, i as nat) * claims[i];
    let b = |i: int| pow(r, i as nat) * right[i];
    let e = |i: int| pow(r, i as nat) * (claims[i] - right[i]);
    let ab = |i: int| a(i) - b(i);
    assert forall|i: int| 0 <= i < n implies #[trigger] e(i) == ab(i) by {
        let p = pow(r, i as nat);
        let x = claims[i];
        let y = right[i];
        assert(p * (x - y) == p * x - p * y) by (nonlinear_arith);
    }
    lemma_sum_eq(n, e, ab);
    lemma_sum_sub(n, a, b);
    let t = weighted(right, r);
    lemma_cong_ops(weighted(claims, r), t, t, t);
}

/// What the check of the values on the suffix columns is made of.
proof fn lemma_suffix_run(
    g: GroupCommits,
    lens: Seq<int>,
    abc: Seq<int>,
    de: Seq<int>,
    suf: Seq<int>,
    gamma: int,
    claims: Seq<int>,
    st: State,
    acc: VerAcc,
)
    ensures
        ({
            let m = suffix_run(g.log_col, lens, suf, claims, st);
            verify_suffix(g, lens, abc, de, suf, gamma, claims, st, acc) == verify_memory(
                g,
                m.e_row,
                m.e_col,
                m.e_pow,
                ShapeView::Rows(abc, de),
                ShapeView::Eq(suf),
                ShapeView::Powers(gamma),
                m.end,
                suffix_claims(g, m, acc),
            )
        }),
{
    reveal(verify_suffix);
}

/// The first claims of the check are kept by the check of the reads.
proof fn lemma_memory_keeps(
    g: GroupCommits,
    e_row: Seq<int>,
    e_col: Seq<int>,
    e_pow: Seq<int>,
    tr: ShapeView,
    tc: ShapeView,
    tg: ShapeView,
    st: State,
    acc: VerAcc,
)
    ensures
        ({
            let out = verify_memory(g, e_row, e_col, e_pow, tr, tc, tg, st, acc).1;
            &&& out.values.len() == acc.values.len() + 15
            &&& out.points.len() == acc.points.len() + 15
            &&& forall|i: int|
                0 <= i < acc.values.len() ==> #[trigger] out.values[i] == acc.values[i]
            &&& forall|i: int|
                0 <= i < acc.points.len() ==> #[trigger] out.points[i] == acc.points[i]
        }),
{
    reveal(verify_memory);
    reveal(crate::sparse_verifier::verify_right);
}

/// A check of the values on the suffix columns that is accepted, and leaves right claims on
/// the entries of a circuit and on vectors, was of the values of the matrices at the points;
/// unless a challenge slips.
#[verifier::rlimit(60)]
pub proof fn law_sound_suffix(
    gc: GroupCommits,
    c: CircuitView,
    chunk: int,
    abc: Seq<int>,
    de: Seq<int>,
    suf: Seq<int>,
    pre: Seq<int>,
    gamma: int,
    claims: Seq<int>,
    st: State,
    acc: VerAcc,
    before: Seq<Seq<int>>,
    x: SuffixVectors,
)
    requires
        circuit_fits(c, chunk),
        points_fit(c, abc, de, suf, pre),
        vectors_fit(suffix_group(c), x.memory),
        x.memory.vr.len() == pow2(suffix_group(c).log_row),
        x.memory.vc.len() == pow2(suffix_group(c).log_col),
        x.memory.vg.len() == pow2(suffix_group(c).log_pow),
        gc.log_row == suffix_group(c).log_row,
        gc.log_col == suffix_group(c).log_col,
        gc.log_pow == suffix_group(c).log_pow,
        before.len() == acc.values.len(),
        acc.points.len() == acc.values.len(),
        suffix_lengths(c, abc, de, suf, gamma, claims, st),
        ({
            let (end, out) = verify_suffix(
                gc,
                suffix_lens(c),
                abc,
                de,
                suf,
                gamma,
                claims,
                st,
                acc,
            );
            end.ok && claims_right(out, before + suffix_polys(suffix_group(c), x))
        }),
    ensures
        claims.len() == 5,
        ({
            ||| forall|i: int|
                0 <= i < 5 ==> cong(
                    #[trigger] claims[i],
                    sparse_values(c, abc, de, suf, pre, gamma)[i],
                )
            ||| suffix_slip(c, abc, de, suf, pre, gamma, claims, st, x.memory)
        }),
{
    let g = suffix_group(c);
    let lens = suffix_lens(c);
    let t = suffix_tables(c, abc, de, suf, gamma);
    let m = suffix_run(g.log_col, lens, suf, claims, st);
    let n = g.row.len() as int;
    let nv = log2_ceil(n) as int;
    let a2 = suffix_claims(gc, m, acc);
    let w = entry_weights(lens, m.r, n);
    let val = pointwise(g.val, w);
    let none = Seq::<int>::empty();
    let y = x.memory;
    lemma_suffix_group(c, chunk);
    lemma_suffix_run(gc, lens, abc, de, suf, gamma, claims, st, acc);
    lemma_memory_ok(
        gc,
        m.e_row,
        m.e_col,
        m.e_pow,
        t.row_shape,
        t.col_shape,
        t.pow_shape,
        m.end,
        a2,
    );
    assert(m.end.ok);
    lemma_shape_rows(abc, de, row_base_log(c));
    lemma_shape_eq(suf);
    lemma_shape_powers(gamma, pow_log(c));
    let first = before + seq![y.e_row, y.e_col, y.e_pow, x.v, g.val];
    assert(before + suffix_polys(g, x) =~= first + memory_polys(g, y));
    law_sound_memory(gc, m.e_row, m.e_col, m.e_pow, m.end, a2, first, g, t, y);
    lemma_memory_keeps(
        gc,
        m.e_row,
        m.e_col,
        m.e_pow,
        t.row_shape,
        t.col_shape,
        t.pow_shape,
        m.end,
        a2,
    );
    let out = verify_suffix(gc, lens, abc, de, suf, gamma, claims, st, acc).1;
    let k = before.len() as int;
    let polys = before + suffix_polys(g, x);
    assert forall|i: int| 0 <= i < 5 implies cong(
        #[trigger] a2.values[k + i],
        mle(first[k + i], a2.points[k + i]),
    ) by {
        assert(cong(out.values[k + i], mle(polys[k + i], out.points[k + i])));
        assert(polys[k + i] == first[k + i]);
        assert(out.points[k + i] == a2.points[k + i]);
    }
    assert(a2.values[k + 0] == m.x[0] && a2.points[k + 0] == m.first);
    assert(a2.values[k + 1] == m.x[1] && a2.points[k + 1] == m.first);
    assert(a2.values[k + 2] == m.x[2] && a2.points[k + 2] == m.first);
    assert(a2.values[k + 4] == m.t[2] && a2.points[k + 4] == m.second);
    assert(first[k + 0] == y.e_row && first[k + 1] == y.e_col && first[k + 2] == y.e_pow);
    assert(first[k + 4] == g.val);
    // the weighted entries
    lemma_log2_ceil(n);
    lemma_rounds_ok(weighted(claims, m.r), nv, 4, m.start);
    lemma_rounds_ok(m.x[3], nv, 3, m.start2);
    lemma_rounds_len(weighted(claims, m.r), nv, 4, m.start);
    lemma_rounds_len(m.x[3], nv, 3, m.start2);
    lemma_mle_eq_take(m.first, m.second, n);
    lemma_suffix_slices(c);
    assert forall|i: int| 0 <= i < lens.len() implies #[trigger] lens[i] >= 0 by {}
    lemma_slice_weights_len(lens, m.r, 5);
    lemma_suffix_sum(c, chunk, abc, de, suf, pre, gamma, m.r);
    assert(g.row.len() >= all_suffix_quads(c).len()) by {
        reveal(suffix_group);
    }
    lemma_mle_weights(lens, m.r, n, m.second);
    assert(min(n, pow2(nv as nat) as int) == n);
    let eqs = eq_table(m.first).take(n);
    lemma_three(eqs, w, g.val, m.x[3], m.t, m.start2);
    lemma_weighted_value(g.val, w, m.first);
    // the values
    if !suffix_slip(c, abc, de, suf, pre, gamma, claims, st, y) {
        lemma_four(y.e_row, y.e_col, y.e_pow, val, weighted(claims, m.r), m.x, m.start);
        lemma_suffix_value(c, chunk, abc, de, suf, pre, gamma, m.r);
        let rr = reads(g.row, t.row);
        let rc = reads(g.col, t.col);
        let rg = reads(g.pow, t.pow);
        lemma_products_cong(y.e_row, y.e_col, y.e_pow, val, rr, rc, rg);
        let right = sparse_values(c, abc, de, suf, pre, gamma).take(5);
        lemma_ten(c, abc, de, suf, pre, gamma);
        lemma_unweigh(claims, right, m.r);
        assert forall|i: int| 0 <= i < 5 implies cong(
            #[trigger] claims[i],
            sparse_values(c, abc, de, suf, pre, gamma)[i],
        ) by {
            assert(cong(claims[i], right[i]));
        }
    }
}

proof fn lemma_ten(
    c: CircuitView,
    abc: Seq<int>,
    de: Seq<int>,
    suf: Seq<int>,
    pre: Seq<int>,
    gamma: int,
)
    ensures
        sparse_values(c, abc, de, suf, pre, gamma).len() == 10,
{
    reveal(sparse_values);
}

/// The weighted values of the matrices are the sum over the entries.
proof fn lemma_suffix_value(
    c: CircuitView,
    chunk: int,
    abc: Seq<int>,
    de: Seq<int>,
    suf: Seq<int>,
    pre: Seq<int>,
    gamma: int,
    r: int,
)
    requires
        circuit_fits(c, chunk),
        points_fit(c, abc, de, suf, pre),
    ensures
        ({
            let g = suffix_group(c);
            let t = suffix_tables(c, abc, de, suf, gamma);
            whole_sum(
                product4(),
                Seq::empty(),
                seq![
                    reads(g.row, t.row),
                    reads(g.col, t.col),
                    reads(g.pow, t.pow),
                    pointwise(g.val, entry_weights(suffix_lens(c), r, g.row.len() as int)),
                ],
                g.row.len() as int,
            ) == weighted(sparse_values(c, abc, de, suf, pre, gamma).take(5), r)
        }),
{
    reveal(suffix_group);
    let t = suffix_tables(c, abc, de, suf, gamma);
    lemma_suffix_sum(c, chunk, abc, de, suf, pre, gamma, r);
    lemma_weighted_group(
        all_suffix_quads(c),
        suffix_lens(c),
        r,
        row_base_log(c) + 1,
        log2_ceil(c.z_len - c.weight_len),
        pow_log(c),
        t.row,
        t.col,
        t.pow,
    );
}

/// What the check of the value on the prefix columns reads and draws before it comes to the
/// reads.
pub ghost struct PrefixRun {
    pub e_row: Seq<int>,
    pub e_col: Seq<int>,
    pub e_pow: Seq<int>,
    pub len: int,
    pub start: State,
    pub point: Seq<int>,
    pub x: Seq<int>,
    pub end: State,
}

/// What the check of the value on the prefix columns reads and draws before it comes to the
/// reads.
pub open spec fn prefix_run(
    log_row: nat,
    log_col: nat,
    row_point: Seq<int>,
    col_point: Seq<int>,
    claim: int,
    st: State,
) -> PrefixRun {
    let st0 = require(st, row_point.len() == log_row && col_point.len() == log_col);
    let (st1, e_row) = read_points(st0);
    let (st2, e_col) = read_points(st1);
    let (st3, e_pow) = read_points(st2);
    let (st4, len) = read_len(st3, 0);
    let (p1, y1, st5) = verify_rounds(claim, log2_ceil(len) as int, 4, st4);
    let (st6, x) = read_fs(st5, 4);
    let st7 = require(st6, cong(y1, x[0] * x[1] * x[2] * x[3]));
    PrefixRun { e_row, e_col, e_pow, len, start: st4, point: p1, x, end: st7 }
}

/// The claims of the check of the value on the prefix columns before it comes to the reads.
pub open spec fn prefix_claims(g: GroupCommits, m: PrefixRun, acc: VerAcc) -> VerAcc {
    let a1 = ver_push(
        ver_push(ver_push(acc, m.e_row, m.point, m.x[0]), m.e_col, m.point, m.x[1]),
        m.e_pow,
        m.point,
        m.x[2],
    );
    ver_push(a1, g.val, m.point, m.x[3])
}

/// The tables of the check of the value on the prefix columns.
pub open spec fn prefix_tables(
    c: CircuitView,
    abc: Seq<int>,
    pre: Seq<int>,
    gamma: int,
) -> Tables {
    Tables {
        row_shape: ShapeView::Eq(abc),
        col_shape: ShapeView::Eq(pre),
        pow_shape: ShapeView::Powers(gamma),
        row: eq_table(abc),
        col: eq_table(pre),
        pow: gamma_table(gamma, pow_log(c)),
    }
}

/// The polynomials that the check of the value on the prefix columns leaves claims on.
pub open spec fn prefix_polys(g: GroupView, x: MemoryVectors) -> Seq<Seq<int>> {
    seq![x.e_row, x.e_col, x.e_pow, g.val] + memory_polys(g, x)
}

/// A challenge of the check of the value on the prefix columns slips: one of a round, or
/// one of the check of the reads.
pub open spec fn prefix_slip(
    c: CircuitView,
    abc: Seq<int>,
    pre: Seq<int>,
    gamma: int,
    claim: int,
    st: State,
    x: MemoryVectors,
) -> bool {
    let g = prefix_group(c);
    let m = prefix_run(g.log_row, g.log_col, abc, pre, claim, st);
    let n = g.row.len() as int;
    ||| met(
        claim,
        log2_ceil(n) as int,
        4,
        m.start,
        product4(),
        Seq::empty(),
        seq![x.e_row, x.e_col, x.e_pow, g.val],
        n,
    )
    ||| memory_slip(m.end, g, prefix_tables(c, abc, pre, gamma), x)
}

/// The lengths that the check of the value on the prefix columns reads are those of the
/// entries and the tables.
pub open spec fn prefix_lengths(
    c: CircuitView,
    abc: Seq<int>,
    pre: Seq<int>,
    gamma: int,
    claim: int,
    st: State,
) -> bool {
    let g = prefix_group(c);
    let m = prefix_run(g.log_row, g.log_col, abc, pre, claim, st);
    &&& m.len == g.row.len()
    &&& memory_lengths(m.end, g, prefix_tables(c, abc, pre, gamma))
}

/// What the check of the value on the prefix columns is made of.
proof fn lemma_prefix_run(
    g: GroupCommits,
    abc: Seq<int>,
    pre: Seq<int>,
    gamma: int,
    claim: int,
    st: State,
    acc: VerAcc,
)
    ensures
        ({
            let m = prefix_run(g.log_row, g.log_col, abc, pre, claim, st);
            verify_prefix(g, abc, pre, gamma, claim, st, acc) == verify_memory(
                g,
                m.e_row,
                m.e_col,
                m.e_pow,
                ShapeView::Eq(abc),
                ShapeView::Eq(pre),
                ShapeView::Powers(gamma),
                m.end,
                prefix_claims(g, m, acc),
            )
        }),
{
    reveal(verify_prefix);
}

/// The value of the second matrix on the prefix columns is the sum over the entries.
proof fn lemma_prefix_value(
    c: CircuitView,
    chunk: int,
    abc: Seq<int>,
    de: Seq<int>,
    suf: Seq<int>,
    pre: Seq<int>,
    gamma: int,
)
    requires
        circuit_fits(c, chunk),
        points_fit(c, abc, de, suf, pre),
    ensures
        ({
            let g = prefix_group(c);
            let t = prefix_tables(c, abc, pre, gamma);
            whole_sum(
                product4(),
                Seq::empty(),
                seq![reads(g.row, t.row), reads(g.col, t.col), reads(g.pow, t.pow), g.val],
                g.row.len() as int,
            ) == sparse_values(c, abc, de, suf, pre, gamma)[6]
        }),
{
    reveal(prefix_group);
    reveal(sparse_values);
    let t = prefix_tables(c, abc, pre, gamma);
    lemma_prefix_sum(c, chunk, abc, pre, gamma);
    lemma_group_sum(
        quads(c.b, 0, c.weight_len, c.b.len() as int),
        log2_ceil(c.a.len() as int),
        log2_ceil(c.weight_len),
        pow_log(c),
        t.row,
        t.col,
        t.pow,
    );
}

/// A check of the value on the prefix columns that is accepted, and leaves right claims on
/// the entries of a circuit and on vectors, was of the value of the second matrix at the
/// points; unless a challenge slips.
#[verifier::rlimit(60)]
pub proof fn law_sound_prefix(
    gc: GroupCommits,
    c: CircuitView,
    chunk: int,
    abc: Seq<int>,
    de: Seq<int>,
    suf: Seq<int>,
    pre: Seq<int>,
    gamma: int,
    claim: int,
    st: State,
    acc: VerAcc,
    before: Seq<Seq<int>>,
    x: MemoryVectors,
)
    requires
        circuit_fits(c, chunk),
        points_fit(c, abc, de, suf, pre),
        vectors_fit(prefix_group(c), x),
        x.vr.len() == pow2(prefix_group(c).log_row),
        x.vc.len() == pow2(prefix_group(c).log_col),
        x.vg.len() == pow2(prefix_group(c).log_pow),
        gc.log_row == prefix_group(c).log_row,
        gc.log_col == prefix_group(c).log_col,
        gc.log_pow == prefix_group(c).log_pow,
        before.len() == acc.values.len(),
        acc.points.len() == acc.values.len(),
        prefix_lengths(c, abc, pre, gamma, claim, st),
        ({
            let (end, out) = verify_prefix(gc, abc, pre, gamma, claim, st, acc);
            end.ok && claims_right(out, before + prefix_polys(prefix_group(c), x))
        }),
    ensures
        cong(claim, sparse_values(c, abc, de, suf, pre, gamma)[6]) || prefix_slip(
            c,
            abc,
            pre,
            gamma,
            claim,
            st,
            x,
        ),
{
    let g = prefix_group(c);
    let t = prefix_tables(c, abc, pre, gamma);
    let m = prefix_run(g.log_row, g.log_col, abc, pre, claim, st);
    let n = g.row.len() as int;
    let a2 = prefix_claims(gc, m, acc);
    lemma_prefix_group(c, chunk);
    lemma_prefix_run(gc, abc, pre, gamma, claim, st, acc);
    lemma_memory_ok(
        gc,
        m.e_row,
        m.e_col,
        m.e_pow,
        t.row_shape,
        t.col_shape,
        t.pow_shape,
        m.end,
        a2,
    );
    lemma_shape_eq(abc);
    lemma_shape_eq(pre);
    lemma_shape_powers(gamma, pow_log(c));
    let first = before + seq![x.e_row, x.e_col, x.e_pow, g.val];
    assert(before + prefix_polys(g, x) =~= first + memory_polys(g, x));
    law_sound_memory(gc, m.e_row, m.e_col, m.e_pow, m.end, a2, first, g, t, x);
    lemma_memory_keeps(
        gc,
        m.e_row,
        m.e_col,
        m.e_pow,
        t.row_shape,
        t.col_shape,
        t.pow_shape,
        m.end,
        a2,
    );
    let out = verify_prefix(gc, abc, pre, gamma, claim, st, acc).1;
    let k = before.len() as int;
    let polys = before + prefix_polys(g, x);
    assert forall|i: int| 0 <= i < 4 implies cong(
        #[trigger] a2.values[k + i],
        mle(first[k + i], a2.points[k + i]),
    ) by {
        assert(cong(out.values[k + i], mle(polys[k + i], out.points[k + i])));
        assert(polys[k + i] == first[k + i]);
        assert(out.points[k + i] == a2.points[k + i]);
    }
    assert(a2.values[k + 0] == m.x[0] && a2.points[k + 0] == m.point);
    assert(a2.values[k + 1] == m.x[1] && a2.points[k + 1] == m.point);
    assert(a2.values[k + 2] == m.x[2] && a2.points[k + 2] == m.point);
    assert(a2.values[k + 3] == m.x[3] && a2.points[k + 3] == m.point);
    assert(first[k + 0] == x.e_row && first[k + 1] == x.e_col && first[k + 2] == x.e_pow);
    assert(first[k + 3] == g.val);
    if !prefix_slip(c, abc, pre, gamma, claim, st, x) {
        lemma_four(x.e_row, x.e_col, x.e_pow, g.val, claim, m.x, m.start);
        lemma_prefix_value(c, chunk, abc, de, suf, pre, gamma);
        let rr = reads(g.row, t.row);
        let rc = reads(g.col, t.col);
        let rg = reads(g.pow, t.pow);
        lemma_products_cong(x.e_row, x.e_col, x.e_pow, g.val, rr, rc, rg);
    }
}

/// The ten values that an opening of the matrices reads, the claims that it makes on
/// committed vectors, and the states before its check of the suffix columns, before that of
/// the prefix columns and before the joint opening.
pub ghost struct OpeningRun {
    pub values: Seq<int>,
    pub suffix: State,
    pub suffix_acc: VerAcc,
    pub prefix: State,
    pub acc: VerAcc,
    pub joint: State,
}

/// The course of an opening of the matrices up to the joint opening.
pub open spec fn opening_run(
    g: GroupCommits,
    lens: Seq<int>,
    b: GroupCommits,
    abc: Seq<int>,
    de: Seq<int>,
    suf: Seq<int>,
    pre: Seq<int>,
    gamma: int,
    st: State,
) -> OpeningRun {
    let (st1, v) = read_fs(st, 10);
    let st2 = require(
        st1,
        cong(v[5], 0) && cong(v[7], 0) && cong(v[8], 0) && cong(v[9], 0),
    );
    let none = VerAcc { commits: Seq::empty(), points: Seq::empty(), values: Seq::empty() };
    let (st3, a1) = verify_suffix(g, lens, abc, de, suf, gamma, v.take(5), st2, none);
    let (st4, a2) = verify_prefix(b, abc, pre, gamma, v[6], st3, a1);
    OpeningRun { values: v, suffix: st2, suffix_acc: a1, prefix: st3, acc: a2, joint: st4 }
}

/// An accepted opening of the matrices was accepted by the joint opening of all the claims
/// that it makes on committed vectors, and in each of its checks before it.
pub proof fn law_sparse_joint(
    vp: VerParams,
    g: GroupCommits,
    lens: Seq<int>,
    b: GroupCommits,
    abc: Seq<int>,
    de: Seq<int>,
    suf: Seq<int>,
    pre: Seq<int>,
    gamma: int,
    st: State,
)
    requires
        sparse_verify_of(vp, g, lens, b, abc, de, suf, pre, gamma, st).0.ok,
    ensures
        ({
            let run = opening_run(g, lens, b, abc, de, suf, pre, gamma, st);
            &&& verify_batch(vp, run.acc, run.joint).ok
            &&& run.joint.ok
            &&& run.prefix.ok
            &&& run.suffix.ok
            &&& sparse_verify_of(vp, g, lens, b, abc, de, suf, pre, gamma, st).1 == run.values
            &&& cong(run.values[5], 0)
            &&& cong(run.values[7], 0)
            &&& cong(run.values[8], 0)
            &&& cong(run.values[9], 0)
        }),
{
    reveal(sparse_verify_of);
    let run = opening_run(g, lens, b, abc, de, suf, pre, gamma, st);
    lemma_batch_ok(vp, run.acc, run.joint);
    lemma_prefix_ok(b, abc, pre, gamma, run.values[6], run.prefix, run.suffix_acc);
    let none = VerAcc { commits: Seq::empty(), points: Seq::empty(), values: Seq::empty() };
    lemma_suffix_ok(g, lens, abc, de, suf, gamma, run.values.take(5), run.suffix, none);
}

/// The vectors that an opening of the matrices is about.
pub ghost struct OpeningVectors {
    pub suffix: SuffixVectors,
    pub prefix: MemoryVectors,
}

/// The polynomials that an opening of the matrices leaves claims on.
pub open spec fn opening_polys(c: CircuitView, x: OpeningVectors) -> Seq<Seq<int>> {
    suffix_polys(suffix_group(c), x.suffix) + prefix_polys(prefix_group(c), x.prefix)
}

/// The vectors have as many places as the entries and the tables of the circuit.
pub open spec fn opening_fits(c: CircuitView, x: OpeningVectors) -> bool {
    let g = suffix_group(c);
    let b = prefix_group(c);
    &&& vectors_fit(g, x.suffix.memory)
    &&& vectors_fit(b, x.prefix)
    &&& x.suffix.v.len() == g.row.len()
    &&& x.suffix.memory.vr.len() == pow2(g.log_row)
    &&& x.suffix.memory.vc.len() == pow2(g.log_col)
    &&& x.suffix.memory.vg.len() == pow2(g.log_pow)
    &&& x.prefix.vr.len() == pow2(b.log_row)
    &&& x.prefix.vc.len() == pow2(b.log_col)
    &&& x.prefix.vg.len() == pow2(b.log_pow)
}

/// The commitments are for tables of the sizes of the groups of a circuit.
pub open spec fn logs_match(g: GroupCommits, v: GroupView) -> bool {
    &&& g.log_row == v.log_row
    &&& g.log_col == v.log_col
    &&& g.log_pow == v.log_pow
}

/// The lengths that an opening of the matrices reads are those of a circuit.
pub open spec fn opening_lengths(
    c: CircuitView,
    abc: Seq<int>,
    de: Seq<int>,
    suf: Seq<int>,
    pre: Seq<int>,
    gamma: int,
    run: OpeningRun,
) -> bool {
    &&& suffix_lengths(c, abc, de, suf, gamma, run.values.take(5), run.suffix)
    &&& prefix_lengths(c, abc, pre, gamma, run.values[6], run.prefix)
}

/// A challenge of an opening of the matrices slips.
pub open spec fn opening_slip(
    c: CircuitView,
    abc: Seq<int>,
    de: Seq<int>,
    suf: Seq<int>,
    pre: Seq<int>,
    gamma: int,
    run: OpeningRun,
    x: OpeningVectors,
) -> bool {
    ||| suffix_slip(
        c,
        abc,
        de,
        suf,
        pre,
        gamma,
        run.values.take(5),
        run.suffix,
        x.suffix.memory,
    )
    ||| prefix_slip(c, abc, pre, gamma, run.values[6], run.prefix, x.prefix)
}

/// The values that an opening reads are those of the matrices at the points.
pub open spec fn values_right(
    c: CircuitView,
    abc: Seq<int>,
    de: Seq<int>,
    suf: Seq<int>,
    pre: Seq<int>,
    gamma: int,
    v: Seq<int>,
) -> bool {
    forall|i: int|
        0 <= i < 10 ==> cong(#[trigger] v[i], sparse_values(c, abc, de, suf, pre, gamma)[i])
}

/// An accepted opening of the matrices whose claims are right of the entries of a circuit
/// and of vectors gives the values of the matrices of the circuit at the points, unless a
/// challenge slips.
#[verifier::rlimit(60)]
pub proof fn law_sound_sparse(
    vp: VerParams,
    g: GroupCommits,
    b: GroupCommits,
    c: CircuitView,
    chunk: int,
    abc: Seq<int>,
    de: Seq<int>,
    suf: Seq<int>,
    pre: Seq<int>,
    gamma: int,
    st: State,
    x: OpeningVectors,
)
    requires
        circuit_fits(c, chunk),
        points_fit(c, abc, de, suf, pre),
        prefix_free(sparse_values(c, abc, de, suf, pre, gamma)),
        logs_match(g, suffix_group(c)),
        logs_match(b, prefix_group(c)),
        opening_fits(c, x),
        sparse_verify_of(vp, g, suffix_lens(c), b, abc, de, suf, pre, gamma, st).0.ok,
        opening_lengths(
            c,
            abc,
            de,
            suf,
            pre,
            gamma,
            opening_run(g, suffix_lens(c), b, abc, de, suf, pre, gamma, st),
        ),
        claims_right(
            opening_run(g, suffix_lens(c), b, abc, de, suf, pre, gamma, st).acc,
            opening_polys(c, x),
        ),
    ensures
        ({
            let run = opening_run(g, suffix_lens(c), b, abc, de, suf, pre, gamma, st);
            let v = sparse_verify_of(vp, g, suffix_lens(c), b, abc, de, suf, pre, gamma, st).1;
            ||| values_right(c, abc, de, suf, pre, gamma, v)
            ||| opening_slip(c, abc, de, suf, pre, gamma, run, x)
        }),
{
    let lens = suffix_lens(c);
    let run = opening_run(g, lens, b, abc, de, suf, pre, gamma, st);
    let none = VerAcc { commits: Seq::empty(), points: Seq::empty(), values: Seq::empty() };
    let empty = Seq::<Seq<int>>::empty();
    law_sparse_joint(vp, g, lens, b, abc, de, suf, pre, gamma, st);
    let claims = run.values.take(5);
    let sg = suffix_group(c);
    let pg = prefix_group(c);
    let m = suffix_run(g.log_col, lens, suf, claims, run.suffix);
    lemma_suffix_run(g, lens, abc, de, suf, gamma, claims, run.suffix, none);
    lemma_memory_keeps(
        g,
        m.e_row,
        m.e_col,
        m.e_pow,
        ShapeView::Rows(abc, de),
        ShapeView::Eq(suf),
        ShapeView::Powers(gamma),
        m.end,
        suffix_claims(g, m, none),
    );
    let k = prefix_run(b.log_row, b.log_col, abc, pre, run.values[6], run.prefix);
    lemma_prefix_run(b, abc, pre, gamma, run.values[6], run.prefix, run.suffix_acc);
    let mid = prefix_claims(b, k, run.suffix_acc);
    lemma_memory_keeps(
        b,
        k.e_row,
        k.e_col,
        k.e_pow,
        ShapeView::Eq(abc),
        ShapeView::Eq(pre),
        ShapeView::Powers(gamma),
        k.end,
        mid,
    );
    let polys = opening_polys(c, x);
    let sp = suffix_polys(sg, x.suffix);
    assert(run.suffix_acc.values.len() == 20 && run.suffix_acc.points.len() == 20);
    assert(sp.len() == 20);
    assert(claims_right(run.suffix_acc, sp)) by {
        assert forall|i: int| 0 <= i < 20 implies cong(
            #[trigger] run.suffix_acc.values[i],
            mle(sp[i], run.suffix_acc.points[i]),
        ) by {
            assert(mid.values[i] == run.suffix_acc.values[i]);
            assert(mid.points[i] == run.suffix_acc.points[i]);
            assert(run.acc.values[i] == mid.values[i]);
            assert(run.acc.points[i] == mid.points[i]);
            assert(polys[i] == sp[i]);
            assert(cong(run.acc.values[i], mle(polys[i], run.acc.points[i])));
        }
    }
    assert(empty + sp =~= sp);
    law_sound_suffix(
        g,
        c,
        chunk,
        abc,
        de,
        suf,
        pre,
        gamma,
        claims,
        run.suffix,
        none,
        empty,
        x.suffix,
    );
    law_sound_prefix(
        b,
        c,
        chunk,
        abc,
        de,
        suf,
        pre,
        gamma,
        run.values[6],
        run.prefix,
        run.suffix_acc,
        sp,
        x.prefix,
    );
    if !opening_slip(c, abc, de, suf, pre, gamma, run, x) {
        let right = sparse_values(c, abc, de, suf, pre, gamma);
        let v = run.values;
        assert forall|i: int| 0 <= i < 10 implies cong(#[trigger] v[i], right[i]) by {
            if i < 5 {
                assert(claims[i] == v[i]);
                assert(cong(claims[i], right[i]));
            }
        }
    }
}

/// An accepted opening of the matrices under commitments to the entries of a circuit and to
/// vectors, whose joint opening leaves a right claim, gives the values of the matrices of
/// the circuit at the points; unless a challenge slips, in the joint opening or before it.
#[verifier::rlimit(40)]
pub proof fn law_sound_opening(
    vp: VerParams,
    g: GroupCommits,
    b: GroupCommits,
    c: CircuitView,
    chunk: int,
    abc: Seq<int>,
    de: Seq<int>,
    suf: Seq<int>,
    pre: Seq<int>,
    gamma: int,
    st: State,
    x: OpeningVectors,
)
    requires
        circuit_fits(c, chunk),
        points_fit(c, abc, de, suf, pre),
        prefix_free(sparse_values(c, abc, de, suf, pre, gamma)),
        logs_match(g, suffix_group(c)),
        logs_match(b, prefix_group(c)),
        opening_fits(c, x),
        sparse_verify_of(vp, g, suffix_lens(c), b, abc, de, suf, pre, gamma, st).0.ok,
        ({
            let run = opening_run(g, suffix_lens(c), b, abc, de, suf, pre, gamma, st);
            let (st1, points) = read_points(run.joint);
            let (st2, sc) = read_list(st1);
            let nv = max_len(run.acc.points, run.acc.points.len() as int);
            let rp = st2.ch.subrange(1, 1 + nv);
            let w = batch_weights(run.acc.points, nv, st2.ch[0], rp);
            &&& opening_lengths(c, abc, de, suf, pre, gamma, run)
            &&& claims_shaped(opening_polys(c, x), run.acc.points, run.acc.values)
            &&& cong(
                last_claim(run.acc.points, run.acc.values, sc, st2),
                mle(combine(opening_polys(c, x), w), rp),
            )
        }),
    ensures
        ({
            let run = opening_run(g, suffix_lens(c), b, abc, de, suf, pre, gamma, st);
            let v = sparse_verify_of(vp, g, suffix_lens(c), b, abc, de, suf, pre, gamma, st).1;
            let polys = opening_polys(c, x);
            let n = polys.len() as int;
            let st2 = read_list(read_points(run.joint).0).0;
            let sc = read_list(read_points(run.joint).0).1;
            let nv = max_len(run.acc.points, run.acc.points.len() as int);
            ||| values_right(c, abc, de, suf, pre, gamma, v)
            ||| opening_slip(c, abc, de, suf, pre, gamma, run, x)
            ||| joined_away(claim_errors(polys, run.acc.points, run.acc.values), st2.ch[0])
            ||| batch_met(
                sc,
                0,
                nv,
                st2.ch.drop_first(),
                batch_gate(n, n),
                powers(st2.ch[0], n),
                batch_tables(polys, run.acc.points, nv),
                pow2(nv as nat) as int,
            )
        }),
{
    let lens = suffix_lens(c);
    let run = opening_run(g, lens, b, abc, de, suf, pre, gamma, st);
    let polys = opening_polys(c, x);
    law_sparse_joint(vp, g, lens, b, abc, de, suf, pre, gamma, st);
    let (st1, points) = read_points(run.joint);
    let (st2, sc) = read_list(st1);
    law_sound_joint(vp, polys, run.acc.points, run.acc.values, run.acc.commits, points, sc, st2);
    if forall|i: int|
        0 <= i < polys.len() ==> cong(
            run.acc.values[i],
            mle(#[trigger] polys[i], run.acc.points[i]),
        ) {
        assert(claims_right(run.acc, polys)) by {
            assert forall|i: int| 0 <= i < polys.len() implies cong(
                #[trigger] run.acc.values[i],
                mle(polys[i], run.acc.points[i]),
            ) by {
                assert(cong(run.acc.values[i], mle(polys[i], run.acc.points[i])));
            }
        }
        law_sound_sparse(vp, g, b, c, chunk, abc, de, suf, pre, gamma, st, x);
    }
}

} // verus!
