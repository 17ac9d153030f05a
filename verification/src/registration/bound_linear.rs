//! The rules bind the rows of products of matrices and of convolutions.
use vstd::prelude::*;
use vstd::arithmetic::power2::*;
use crate::circuit::{CircuitView, Entry};
use crate::field::{cong, lemma_modulus, modulus};
use crate::sparse::{Quad, all_suffix_quads, not_empty, one_if, quads, size_limit, suffix_quads};
use crate::sums::{lemma_sum_eq, lemma_sum_zero, sum_to};
use super::bound::{
    block_over_program, lemma_counts_agree, lemma_left_same, lemma_parts_entry, lemma_parts_other,
    lemma_row_fits, lemma_small_rows, lemma_suffix_tally, parameters_apart, parts_are, sides_match,
    small_row,
};
use super::certificate::{circuit_vectors, registrable};
use super::compiled_laws::Compiled;
use super::encode::{EncodingView, rows_agree};
use super::expansion_laws::{
    lemma_masked_block, lemma_prefix_block, lemma_prefix_side, lin_weight, mask_of, prefix_block,
};
use super::family::{NUM_FAMILIES, families_of};
use super::kept::lemma_eq_expansion;
use super::matrix_laws::{lemma_row_both, matrix_of, quad_weight, quads_total};
use super::registrar::slacks_fit;
use super::relation::{eq_expansion, family_block, family_col, family_row, masked_block};
use super::row_counts::{
    columns_differ, entry_is, lemma_one_row, lemma_row_tally, lemma_small_same, lemma_sum_bits,
    lemma_tally_bound, lemma_tally_zero, tally,
};
use super::tallies::{blocks_sum, lemma_sum_same};
use super::witness::{circuit_profile, is_lin_column};

verus! {

/// Entries that weigh nothing add up to nothing.
proof fn lemma_total_zero(q: Seq<Quad>, phi: spec_fn(Quad) -> int)
    requires
        forall|k: int| 0 <= k < q.len() ==> phi(#[trigger] q[k]) == 0,
    ensures
        quads_total(q, phi) == 0,
{
    lemma_sum_zero(q.len() as int, |k: int| phi(q[k]));
}

/// A row of another matrix weighs nothing.
proof fn lemma_other_matrix(
    e: EncodingView,
    q: Seq<Quad>,
    lo: int,
    m: int,
    other: int,
    r: int,
    col: int,
    val: int,
    pow: int,
)
    requires
        0 <= m < 3,
        0 <= other < 3,
        m != other,
    ensures
        quads_total(
            q,
            quad_weight(lin_weight(e, parts_are(seq![m, r, col, val, pow]), other), lo),
        ) == 0,
{
    let u = seq![m, r, col, val, pow];
    let h = parts_are(u);
    let psi = lin_weight(e, h, other);
    let phi = quad_weight(psi, lo);
    let key = seq![m, r];
    assert(u =~= key + seq![col, val, pow]);
    lemma_modulus();
    lemma_small_same(other, m);
    assert forall|k: int| 0 <= k < q.len() implies phi(#[trigger] q[k]) == 0 by {
        let en = Entry { col: q[k].col + lo, val: q[k].val, pow: q[k].pow };
        let head = seq![other, q[k].row];
        assert(seq![other, q[k].row, en.col, en.val, en.pow] =~= head + seq![
            en.col,
            en.val,
            en.pow,
        ]);
        lemma_parts_other(head, key, en, col, val, pow, 0);
        assert(is_lin_column(e)[q[k].row] * 0 == 0);
    }
    lemma_total_zero(q, phi);
}

/// What the weight of the entries of a row of products and convolutions is.
proof fn lemma_lin_psi(
    e: EncodingView,
    rows: Seq<Seq<Entry>>,
    m: int,
    r: int,
    col: int,
    val: int,
    pow: int,
)
    requires
        0 <= m < 3,
        0 <= r < rows.len() <= size_limit(),
        is_lin_column(e)[r] == 1,
        small_row(rows[r]),
        0 <= col < usize::MAX,
        0 <= pow < usize::MAX,
    ensures
        ({
            let psi = lin_weight(e, parts_are(seq![m, r, col, val, pow]), m);
            &&& forall|i: int, en: Entry|
                0 <= i < rows.len() && i != r ==> #[trigger] psi(i, en) == 0
            &&& forall|k: int|
                0 <= k < rows[r].len() ==> psi(r, #[trigger] rows[r][k]) == 1 * one_if(
                    entry_is(rows[r][k], col, val, pow),
                )
        }),
{
    let u = seq![m, r, col, val, pow];
    let h = parts_are(u);
    let psi = lin_weight(e, h, m);
    let key = seq![m, r];
    assert(u =~= key + seq![col, val, pow]);
    lemma_modulus();
    assert forall|i: int, en: Entry| 0 <= i < rows.len() && i != r implies #[trigger] psi(i, en)
        == 0 by {
        let head = seq![m, i];
        assert(seq![m, i, en.col, en.val, en.pow] =~= head + seq![en.col, en.val, en.pow]);
        lemma_small_same(i, r);
        lemma_parts_other(head, key, en, col, val, pow, 1);
        assert(is_lin_column(e)[i] * 0 == 0);
    }
    assert forall|k: int| 0 <= k < rows[r].len() implies psi(r, #[trigger] rows[r][k]) == 1
        * one_if(entry_is(rows[r][k], col, val, pow)) by {
        let en = rows[r][k];
        assert(seq![m, r, en.col, en.val, en.pow] =~= key + seq![en.col, en.val, en.pow]);
        lemma_parts_entry(key, key, en, col, val, pow);
    }
}

/// The entries of the second matrix on both ranges of columns.
proof fn lemma_both_tally(
    c: CircuitView,
    r: int,
    col: int,
    val: int,
    pow: int,
    psi: spec_fn(int, Entry) -> int,
)
    requires
        crate::sparse::circuit_fits(c, 1),
        0 <= r < c.b.len(),
        forall|i: int, en: Entry| 0 <= i < c.b.len() && i != r ==> #[trigger] psi(i, en) == 0,
        forall|k: int|
            0 <= k < c.b[r].len() ==> psi(r, #[trigger] c.b[r][k]) == 1 * one_if(
                entry_is(c.b[r][k], col, val, pow),
            ),
    ensures
        quads_total(suffix_quads(c, c.b), quad_weight(psi, c.weight_len)) + quads_total(
            quads(c.b, 0, c.weight_len, c.b.len() as int),
            quad_weight(psi, 0),
        ) == tally(c.b[r], col, val, pow),
{
    let top = usize::MAX as int;
    lemma_small_rows(c, c.b, r);
    lemma_one_row(c.b, c.weight_len, top, r, psi);
    lemma_one_row(c.b, 0, c.weight_len, r, psi);
    lemma_row_both(c.b[r], r, c.weight_len, top, psi);
    lemma_row_tally(c.b[r], r, 1, col, val, pow, psi);
}

/// One where the zero entry that stands for none on the prefix columns is counted.
pub open spec fn filler(
    e: EncodingView,
    c: CircuitView,
    m: int,
    r: int,
    col: int,
    val: int,
    pow: int,
) -> int {
    if m == 1 && quads(c.b, 0, c.weight_len, c.b.len() as int).len() == 0 {
        is_lin_column(e)[0] * parts_are(seq![m, r, col, val, pow])(seq![1, 0, 0, 0, 0])
    } else {
        0
    }
}

/// The left-hand side of the rule on the expansion counts the entries of a row.
#[verifier::rlimit(40)]
proof fn lemma_expansion_count(
    e: EncodingView,
    c: CircuitView,
    m: int,
    r: int,
    col: int,
    val: int,
    pow: int,
)
    requires
        registrable(e, c),
        parameters_apart(c),
        0 <= m < 3,
        0 <= r < e.cons_line,
        is_lin_column(e)[r] == 1,
        0 <= col < usize::MAX,
        0 <= pow < usize::MAX,
    ensures
        ({
            let x = eq_expansion(circuit_profile(e, c));
            let h = parts_are(seq![m, r, col, val, pow]);
            blocks_sum(circuit_vectors(e, c), x.left, h, 4) == tally(
                matrix_of(c, m)[r],
                col,
                val,
                pow,
            ) + filler(e, c, m, r, col, val, pow)
        }),
{
    let f = circuit_vectors(e, c);
    let p = circuit_profile(e, c);
    let x = eq_expansion(p);
    let u = seq![m, r, col, val, pow];
    let h = parts_are(u);
    let wl = c.weight_len;
    let some = quads(c.b, 0, wl, c.b.len() as int);
    let rows = matrix_of(c, m);
    let psi = lin_weight(e, h, m);
    reveal_with_fuel(blocks_sum, 5);
    assert(x.left[0] == masked_block(p, mask_of(0), 0));
    assert(x.left[1] == masked_block(p, mask_of(1), 1));
    assert(x.left[2] == masked_block(p, mask_of(2), 2));
    assert(x.left[3] == prefix_block(e, c));
    lemma_masked_block(e, c, h, 0);
    lemma_masked_block(e, c, h, 1);
    lemma_masked_block(e, c, h, 2);
    lemma_prefix_side(e, c, h);
    if m != 0 {
        lemma_other_matrix(e, suffix_quads(c, c.a), wl, m, 0, r, col, val, pow);
    }
    if m != 1 {
        lemma_other_matrix(e, suffix_quads(c, c.b), wl, m, 1, r, col, val, pow);
        lemma_other_matrix(e, not_empty(some), 0, m, 1, r, col, val, pow);
    }
    if m != 2 {
        lemma_other_matrix(e, suffix_quads(c, c.c), wl, m, 2, r, col, val, pow);
    }
    lemma_small_rows(c, rows, r);
    lemma_lin_psi(e, rows, m, r, col, val, pow);
    if m == 1 {
        lemma_both_tally(c, r, col, val, pow, psi);
        if some.len() == 0 {
            let phi = quad_weight(psi, 0);
            let all = not_empty(some);
            reveal_with_fuel(sum_to, 2);
            assert(quads_total(some, phi) == 0);
            assert(all.len() == 1);
            assert(quads_total(all, phi) == phi(all[0]));
            assert(seq![1int, 0, 0, 0, 0] =~= seq![
                1,
                all[0].row,
                all[0].col + 0,
                all[0].val,
                all[0].pow,
            ]);
        }
    } else {
        lemma_suffix_tally(c, rows, r, 1, col, val, pow, psi);
    }
}

/// The zero entry is counted at most once, and only as a zero entry of the first row.
proof fn lemma_filler(
    e: EncodingView,
    c: CircuitView,
    m: int,
    r: int,
    col: int,
    val: int,
    pow: int,
)
    requires
        0 <= r < usize::MAX,
        0 <= col < usize::MAX,
        0 <= pow < usize::MAX,
        is_lin_column(e)[r] == 1,
    ensures
        0 <= filler(e, c, m, r, col, val, pow) <= 1,
        filler(e, c, m, r, col, val, pow) == 1 ==> cong(val, 0),
{
    if m == 1 && quads(c.b, 0, c.weight_len, c.b.len() as int).len() == 0 {
        let u = seq![m, r, col, val, pow];
        let v = seq![1int, 0, 0, 0, 0];
        lemma_modulus();
        lemma_small_same(0, r);
        assert(is_lin_column(e)[0] * 0 == 0);
        if super::encode::same_elements(v, u) {
            assert(cong(v[1], u[1]) && cong(v[3], u[3]));
        }
    }
}

/// The blocks of the families are over the program.
proof fn lemma_family_program(e: EncodingView, c: CircuitView, k: int)
    requires
        0 <= k < NUM_FAMILIES,
    ensures
        block_over_program(family_block(circuit_profile(e, c), k)),
{
    let p = circuit_profile(e, c);
    let b = family_block(p, k);
    assert forall|i: int| 0 <= i < b.comps.len() implies super::bound::lin_over_program(
        #[trigger] b.comps[i],
    ) by {
        assert(i == 0 || i == 1 || i == 2 || i == 3 || i == 4);
        let row = family_row(families_of()[k]);
        let col = family_col(p, k);
        assert(super::bound::lin_over_program(row));
        assert(super::bound::lin_over_program(col));
    }
}

/// A row of the second matrix is no longer than the entries of that matrix.
proof fn lemma_second_fits(c: CircuitView, r: int)
    requires
        crate::sparse::circuit_fits(c, 1),
        0 <= r < c.b.len(),
    ensures
        c.b[r].len() + 1 < modulus(),
{
    let top = usize::MAX as int;
    let wl = c.weight_len;
    let psi = |i: int, en: Entry| one_if(i == r);
    let row = c.b[r];
    let n = row.len() as int;
    lemma_modulus();
    lemma_small_rows(c, c.b, r);
    lemma_one_row(c.b, wl, top, r, psi);
    lemma_one_row(c.b, 0, wl, r, psi);
    lemma_row_both(row, r, wl, top, psi);
    lemma_sum_same(n, 1);
    lemma_sum_eq(n, |k: int| psi(r, row[k]), |i: int| 1int);
    let q = quads(c.b, wl, top, c.b.len() as int);
    let s = quads(c.b, 0, wl, c.b.len() as int);
    let phi = quad_weight(psi, wl);
    let chi = quad_weight(psi, 0);
    lemma_sum_bits(q.len() as int, |k: int| phi(q[k]));
    lemma_sum_bits(s.len() as int, |k: int| chi(s[k]));
    assert(suffix_quads(c, c.b).len() <= all_suffix_quads(c).len());
}

/// Where the rule on the expansion holds of a program and a circuit, the first three
/// matrices have the rows of products and convolutions that the program compiles to.
#[verifier::rlimit(40)]
pub proof fn lemma_expansion_bound(w: Compiled, c: CircuitView, m: int, r: int)
    requires
        w.ready(),
        slacks_fit(w.encoding(), w.circuit()),
        registrable(w.encoding(), c),
        parameters_apart(c),
        parameters_apart(w.circuit()),
        sides_match(
            circuit_vectors(w.encoding(), c),
            eq_expansion(circuit_profile(w.encoding(), c)),
        ),
        0 <= m < 3,
        0 <= r < w.encoding().cons_line,
        is_lin_column(w.encoding())[r] == 1,
        columns_differ(matrix_of(w.circuit(), m)[r]),
        forall|k: int|
            0 <= k < matrix_of(w.circuit(), m)[r].len() ==> (#[trigger] matrix_of(
                w.circuit(),
                m,
            )[r][k]).val == 1,
    ensures
        rows_agree(matrix_of(c, m)[r], matrix_of(w.circuit(), m)[r]),
{
    let e = w.encoding();
    let d = w.circuit();
    let x = eq_expansion(circuit_profile(e, c));
    let y = eq_expansion(circuit_profile(e, d));
    let a = matrix_of(c, m)[r];
    let b = matrix_of(d, m)[r];
    lemma_modulus();
    assert(x.right =~= y.right) by {
        assert forall|k: int| 0 <= k < NUM_FAMILIES implies #[trigger] x.right[k] == y.right[k] by {
            assert(x.right[k] == family_block(circuit_profile(e, c), k));
            assert(y.right[k] == family_block(circuit_profile(e, d), k));
        }
    }
    assert forall|i: int| 0 <= i < x.right.len() implies block_over_program(
        #[trigger] x.right[i],
    ) by {
        lemma_family_program(e, c, i);
    }
    lemma_small_rows(c, matrix_of(c, m), r);
    lemma_small_rows(d, matrix_of(d, m), r);
    if m == 1 {
        lemma_second_fits(c, r);
        lemma_second_fits(d, r);
    } else {
        lemma_row_fits(c, matrix_of(c, m), r);
        lemma_row_fits(d, matrix_of(d, m), r);
    }
    assert forall|col: int, val: int, pow: int|
        0 <= col < usize::MAX && 0 <= pow < usize::MAX implies cong(
        #[trigger] tally(a, col, val, pow),
        tally(b, col, val, pow),
    ) by {
        let u = seq![m, r, col, val, pow];
        let h = parts_are(u);
        lemma_expansion_count(e, c, m, r, col, val, pow);
        lemma_expansion_count(e, d, m, r, col, val, pow);
        lemma_eq_expansion(w, h);
        lemma_left_same(e, c, d, x, y, u);
        lemma_filler(e, c, m, r, col, val, pow);
        lemma_filler(e, d, m, r, col, val, pow);
        lemma_tally_bound(a, col, val, pow);
        lemma_tally_bound(b, col, val, pow);
        let s = tally(a, col, val, pow) + filler(e, c, m, r, col, val, pow);
        let t = tally(b, col, val, pow) + filler(e, d, m, r, col, val, pow);
        lemma_small_same(s, t);
        if m == 1 && cong(val, 0) {
            lemma_small_same(1, 0);
            assert forall|k: int| 0 <= k < b.len() implies !entry_is(#[trigger] b[k], col, val, pow)
                by {
                assert(b[k].val == 1);
            }
            lemma_tally_zero(b, col, val, pow);
            lemma_prefix_exact(w, r, col, val, pow);
        }
    }
    lemma_counts_agree(a, b);
}

/// In the circuit that a program compiles to no zero entry is counted.
proof fn lemma_prefix_exact(w: Compiled, r: int, col: int, val: int, pow: int)
    requires
        w.ready(),
        slacks_fit(w.encoding(), w.circuit()),
        0 <= r < w.encoding().cons_line,
    ensures
        filler(w.encoding(), w.circuit(), 1, r, col, val, pow) == 0,
{
    let e = w.encoding();
    let d = w.circuit();
    let h = parts_are(seq![1, r, col, val, pow]);
    let some = quads(d.b, 0, d.weight_len, d.b.len() as int);
    if some.len() == 0 {
        let psi = lin_weight(e, h, 1);
        let phi = quad_weight(psi, 0);
        let all = not_empty(some);
        lemma_prefix_side(e, d, h);
        lemma_prefix_block(w, h);
        reveal_with_fuel(sum_to, 2);
        assert(quads_total(some, phi) == 0);
        assert(all.len() == 1);
        assert(quads_total(all, phi) == phi(all[0]));
        assert(seq![1int, 0, 0, 0, 0] =~= seq![
            1,
            all[0].row,
            all[0].col + 0,
            all[0].val,
            all[0].pow,
        ]);
    }
}

} // verus!
