//! The rules hold of the circuit that a program compiles to, and of no other.
use vstd::prelude::*;
use vstd::arithmetic::power2::*;
use crate::circuit::{CircuitView, Entry};
use crate::field::{cong, lemma_modulus, modulus};
use crate::sparse::{
    all_suffix_quads, circuit_max_pow, lemma_suffix_group, max_pow, one_if, quads, row_base_log,
    size_limit, suffix_quads,
};
use crate::sparse_laws::lemma_max_pow;
use crate::sums::{lemma_sum_eq, lemma_sum_single};
use super::accepted::lemma_lin_same;
use super::certificate::{circuit_vectors, registrable};
use super::compiled_laws::{
    Compiled, lemma_eq_outputs, lemma_eq_products, lemma_eq_types, lemma_output_side,
    lemma_product_side, lemma_type_side, output_weight, product_weight,
};
use super::encode::{EncodingView, rows_agree, same_elements};
use super::matrix_laws::{lemma_row_whole, quad_weight, quads_total};
use super::relation::{
    BlockView, EqualityView, LinView, Tab, eq_outputs, eq_products, eq_types, lin_value,
};
use super::row_counts::{
    columns_differ, entry_is, lemma_one_row, lemma_row_tally, lemma_small_same, lemma_sum_bits,
    lemma_tallies_agree, lemma_tally_bound, lemma_tally_zero, tally,
};
use super::tallies::{block_sum, blocks_sum, cells_at, num_at, parts_at, sides_meet};
use super::witness::{circuit_profile, is_lin_column};

verus! {

/// Whether some parts are the given ones.
pub open spec fn parts_are(u: Seq<int>) -> spec_fn(Seq<int>) -> int {
    |v: Seq<int>| one_if(same_elements(v, u))
}

/// On the two sides of an equality, the numerators over any given parts add up to the same.
pub open spec fn sides_match(f: spec_fn(Tab) -> Seq<int>, x: EqualityView) -> bool {
    forall|u: Seq<int>|
        cong(
            #[trigger] blocks_sum(f, x.left, parts_are(u), x.left.len() as int),
            blocks_sum(f, x.right, parts_are(u), x.right.len() as int),
        )
}

/// A vector that is public or depends on the program alone.
pub open spec fn over_program(t: Tab) -> bool {
    match t {
        Tab::Sel(_) => true,
        Tab::Opn(_) => true,
        Tab::Ctr(_) => true,
        Tab::DCtr(_) => true,
        Tab::Base(_) => true,
        Tab::Mult(_) => true,
        Tab::XPtr => true,
        Tab::XBase => true,
        Tab::XCr => true,
        Tab::XOut => true,
        Tab::XAux => true,
        Tab::XOp(_) => true,
        Tab::XDigit(_) => true,
        Tab::XDigitSlack(_) => true,
        Tab::XPow => true,
        Tab::One => true,
        Tab::Identity => true,
        Tab::Ind(_, _) => true,
        _ => false,
    }
}

/// An expression in vectors that depend on the program alone.
pub open spec fn lin_over_program(l: LinView) -> bool {
    forall|k: int| 0 <= k < l.terms.len() ==> over_program((#[trigger] l.terms[k]).1)
}

/// A block over vectors that depend on the program alone.
pub open spec fn block_over_program(b: BlockView) -> bool {
    &&& lin_over_program(b.num)
    &&& forall|i: int| 0 <= i < b.comps.len() ==> lin_over_program(#[trigger] b.comps[i])
}

/// A block over the program is the same sum for every circuit.
proof fn lemma_block_program(
    e: EncodingView,
    c: CircuitView,
    d: CircuitView,
    b: BlockView,
    h: spec_fn(Seq<int>) -> int,
)
    requires
        block_over_program(b),
    ensures
        block_sum(circuit_vectors(e, c), b, h) == block_sum(circuit_vectors(e, d), b, h),
{
    let f = circuit_vectors(e, c);
    let g = circuit_vectors(e, d);
    let len = pow2(b.log_len as nat) as int;
    let s = |x: int| num_at(f, b, x) * h(parts_at(f, b, x));
    let t = |x: int| num_at(g, b, x) * h(parts_at(g, b, x));
    assert(circuit_profile(e, c).x_len == circuit_profile(e, d).x_len);
    assert forall|x: int| 0 <= x < len implies #[trigger] s(x) == t(x) by {
        let u = cells_at(f, len, x);
        let v = cells_at(g, len, x);
        assert forall|y: Tab| over_program(y) implies #[trigger] u(y) == v(y) by {}
        assert forall|k: int| 0 <= k < b.num.terms.len() implies u((#[trigger] b.num.terms[k]).1)
            == v(b.num.terms[k].1) by {
            assert(over_program(b.num.terms[k].1));
        }
        lemma_lin_same(b.num, u, v);
        assert(parts_at(f, b, x) =~= parts_at(g, b, x)) by {
            assert forall|i: int| 0 <= i < b.comps.len() implies lin_value(#[trigger] b.comps[i], u)
                == lin_value(b.comps[i], v) by {
                let l = b.comps[i];
                assert(lin_over_program(l));
                assert forall|k: int| 0 <= k < l.terms.len() implies u((#[trigger] l.terms[k]).1)
                    == v(l.terms[k].1) by {
                    assert(over_program(l.terms[k].1));
                }
                lemma_lin_same(l, u, v);
            }
        }
    }
    lemma_sum_eq(len, s, t);
}

/// Blocks over the program are the same sums for every circuit.
pub proof fn lemma_blocks_program(
    e: EncodingView,
    c: CircuitView,
    d: CircuitView,
    bs: Seq<BlockView>,
    h: spec_fn(Seq<int>) -> int,
    n: int,
)
    requires
        0 <= n <= bs.len(),
        forall|i: int| 0 <= i < bs.len() ==> block_over_program(#[trigger] bs[i]),
    ensures
        blocks_sum(circuit_vectors(e, c), bs, h, n) == blocks_sum(circuit_vectors(e, d), bs, h, n),
    decreases n,
{
    if n > 0 {
        lemma_blocks_program(e, c, d, bs, h, n - 1);
        assert(block_over_program(bs[n - 1]));
        lemma_block_program(e, c, d, bs[n - 1], h);
    }
}

/// Where an equality holds of a program with either of two circuits, and its right-hand
/// side is over the program, the left-hand sides are the same.
pub proof fn lemma_left_same(
    e: EncodingView,
    c: CircuitView,
    d: CircuitView,
    x: EqualityView,
    y: EqualityView,
    u: Seq<int>,
)
    requires
        x.right == y.right,
        forall|i: int| 0 <= i < x.right.len() ==> block_over_program(#[trigger] x.right[i]),
        sides_match(circuit_vectors(e, c), x),
        sides_meet(circuit_vectors(e, d), y, parts_are(u)),
    ensures
        cong(
            blocks_sum(circuit_vectors(e, c), x.left, parts_are(u), x.left.len() as int),
            blocks_sum(circuit_vectors(e, d), y.left, parts_are(u), y.left.len() as int),
        ),
{
    lemma_blocks_program(e, c, d, x.right, parts_are(u), x.right.len() as int);
}

/// The entries of a matrix are in columns from the given one on.
pub open spec fn columns_from(rows: Seq<Seq<Entry>>, lo: int) -> bool {
    forall|r: int, k: int|
        0 <= r < rows.len() && 0 <= k < rows[r].len() ==> lo <= (#[trigger] rows[r][k]).col
}

/// Only the second matrix has entries in the columns of the parameters.
pub open spec fn parameters_apart(c: CircuitView) -> bool {
    &&& columns_from(c.a, c.weight_len)
    &&& columns_from(c.c, c.weight_len)
    &&& columns_from(c.d, c.weight_len)
    &&& columns_from(c.e, c.weight_len)
}

/// The columns and powers of a row are words.
pub open spec fn small_row(row: Seq<Entry>) -> bool {
    forall|k: int|
        0 <= k < row.len() ==> {
            &&& 0 <= (#[trigger] row[k]).col < usize::MAX
            &&& 0 <= row[k].pow < usize::MAX
        }
}

/// A matrix of a circuit has small rows.
pub proof fn lemma_small_rows(c: CircuitView, rows: Seq<Seq<Entry>>, r: int)
    requires
        crate::sparse::circuit_fits(c, 1),
        rows == c.a || rows == c.b || rows == c.c || rows == c.d || rows == c.e,
        0 <= r < rows.len(),
    ensures
        small_row(rows[r]),
{
    assert(max_pow(rows, rows.len() as int) <= circuit_max_pow(c));
    assert(crate::circuit::row_in_range(rows[r], c.z_len));
    assert forall|k: int| 0 <= k < rows[r].len() implies {
        &&& 0 <= (#[trigger] rows[r][k]).col < usize::MAX
        &&& 0 <= rows[r][k].pow < usize::MAX
    } by {
        lemma_max_pow(rows, rows.len() as int, r, k);
    }
}

/// A row with all its columns in a range is no longer than the entries there.
pub proof fn lemma_row_short(rows: Seq<Seq<Entry>>, lo: int, hi: int, r: int)
    requires
        0 <= r < rows.len(),
        forall|k: int| 0 <= k < rows[r].len() ==> lo <= (#[trigger] rows[r][k]).col < hi,
    ensures
        rows[r].len() <= quads(rows, lo, hi, rows.len() as int).len(),
{
    let psi = |i: int, en: Entry| one_if(i == r);
    lemma_one_row(rows, lo, hi, r, psi);
    lemma_row_whole(rows[r], r, lo, hi, psi);
    let row = rows[r];
    let n = row.len() as int;
    let one = |k: int| psi(r, row[k]);
    super::tallies::lemma_sum_same(n, 1);
    lemma_sum_eq(n, one, |i: int| 1int);
    let q = quads(rows, lo, hi, rows.len() as int);
    let phi = quad_weight(psi, lo);
    lemma_sum_bits(q.len() as int, |k: int| phi(q[k]));
}

/// Rows whose counts are the same elements agree.
pub proof fn lemma_counts_agree(a: Seq<Entry>, b: Seq<Entry>)
    requires
        small_row(a),
        small_row(b),
        a.len() < modulus(),
        b.len() < modulus(),
        columns_differ(b),
        forall|col: int, val: int, pow: int|
            0 <= col < usize::MAX && 0 <= pow < usize::MAX ==> cong(
                #[trigger] tally(a, col, val, pow),
                tally(b, col, val, pow),
            ),
    ensures
        rows_agree(a, b),
{
    assert forall|col: int, val: int, pow: int| #[trigger]
        tally(a, col, val, pow) == tally(b, col, val, pow) by {
        if 0 <= col < usize::MAX && 0 <= pow < usize::MAX {
            lemma_tally_bound(a, col, val, pow);
            lemma_tally_bound(b, col, val, pow);
            assert(cong(tally(a, col, val, pow), tally(b, col, val, pow)));
            lemma_small_same(tally(a, col, val, pow), tally(b, col, val, pow));
        } else {
            lemma_tally_zero(a, col, val, pow);
            lemma_tally_zero(b, col, val, pow);
        }
    }
    lemma_tallies_agree(a, b);
}

/// The entries of a matrix whose weight is that of being a given entry of a row, with a
/// factor, weigh what the row counts.
pub proof fn lemma_suffix_tally(
    c: CircuitView,
    rows: Seq<Seq<Entry>>,
    r: int,
    x: int,
    col: int,
    val: int,
    pow: int,
    psi: spec_fn(int, Entry) -> int,
)
    requires
        0 <= r < rows.len(),
        small_row(rows[r]),
        columns_from(rows, c.weight_len),
        forall|i: int, en: Entry| 0 <= i < rows.len() && i != r ==> #[trigger] psi(i, en) == 0,
        forall|k: int|
            0 <= k < rows[r].len() ==> psi(r, #[trigger] rows[r][k]) == x * one_if(
                entry_is(rows[r][k], col, val, pow),
            ),
    ensures
        quads_total(suffix_quads(c, rows), quad_weight(psi, c.weight_len)) == x * tally(
            rows[r],
            col,
            val,
            pow,
        ),
{
    let top = usize::MAX as int;
    lemma_one_row(rows, c.weight_len, top, r, psi);
    assert forall|k: int| 0 <= k < rows[r].len() implies c.weight_len <= (#[trigger] rows[r][k]).col
        < top by {}
    lemma_row_whole(rows[r], r, c.weight_len, top, psi);
    lemma_row_tally(rows[r], r, x, col, val, pow, psi);
}

/// Two circuits for one program number the rows of the lookup matrices alike.
pub proof fn lemma_same_flag(e: EncodingView, c: CircuitView, d: CircuitView)
    requires
        registrable(e, c),
        registrable(e, d),
    ensures
        circuit_profile(e, c).row_flag == circuit_profile(e, d).row_flag,
        0 <= circuit_profile(e, c).row_flag <= 4 * size_limit(),
{
    lemma_suffix_group(c, 1);
    lemma_suffix_group(d, 1);
    crate::sums::lemma_pow2_step(row_base_log(c));
}

/// Being the given parts of a row, for small numbers, is having the row and being the entry.
pub proof fn lemma_parts_entry(
    head: Seq<int>,
    key: Seq<int>,
    en: Entry,
    col: int,
    val: int,
    pow: int,
)
    requires
        head.len() == key.len(),
        0 <= col < usize::MAX,
        0 <= pow < usize::MAX,
        0 <= en.col < usize::MAX,
        0 <= en.pow < usize::MAX,
        same_elements(head, key),
    ensures
        parts_are(key + seq![col, val, pow])(head + seq![en.col, en.val, en.pow]) == one_if(
            entry_is(en, col, val, pow),
        ),
{
    let u = key + seq![col, val, pow];
    let v = head + seq![en.col, en.val, en.pow];
    let n = head.len() as int;
    lemma_modulus();
    lemma_small_same(en.col, col);
    lemma_small_same(en.pow, pow);
    assert(v[n] == en.col && v[n + 1] == en.val && v[n + 2] == en.pow);
    assert(u[n] == col && u[n + 1] == val && u[n + 2] == pow);
    if entry_is(en, col, val, pow) {
        assert forall|i: int| 0 <= i < v.len() implies cong(#[trigger] v[i], u[i]) by {
            if i < n {
                assert(v[i] == head[i] && u[i] == key[i]);
                assert(cong(head[i], key[i]));
            }
        }
        assert(same_elements(v, u));
    } else if same_elements(v, u) {
        assert(cong(v[n], u[n]) && cong(v[n + 1], u[n + 1]) && cong(v[n + 2], u[n + 2]));
    }
}

/// Other parts before the entry are not the given parts.
pub proof fn lemma_parts_other(
    head: Seq<int>,
    key: Seq<int>,
    en: Entry,
    col: int,
    val: int,
    pow: int,
    i: int,
)
    requires
        head.len() == key.len(),
        0 <= i < head.len(),
        !cong(head[i], key[i]),
    ensures
        parts_are(key + seq![col, val, pow])(head + seq![en.col, en.val, en.pow]) == 0,
{
    let u = key + seq![col, val, pow];
    let v = head + seq![en.col, en.val, en.pow];
    assert(v[i] == head[i] && u[i] == key[i]);
    if same_elements(v, u) {
        assert(cong(v[i], u[i]));
    }
}

/// The counts of a row of the fifth matrix.
proof fn lemma_output_count(
    e: EncodingView,
    c: CircuitView,
    r: int,
    col: int,
    val: int,
    pow: int,
)
    requires
        registrable(e, c),
        parameters_apart(c),
        0 <= r < e.lu_line,
        0 <= col < usize::MAX,
        0 <= pow < usize::MAX,
    ensures
        ({
            let p = circuit_profile(e, c);
            let h = parts_are(seq![r + p.row_flag, col, val, pow]);
            block_sum(circuit_vectors(e, c), eq_outputs(p).left[0], h) == tally(
                c.e[r],
                col,
                val,
                pow,
            )
        }),
{
    let p = circuit_profile(e, c);
    let flag = p.row_flag;
    let key = seq![r + flag];
    let u = seq![r + flag, col, val, pow];
    let h = parts_are(u);
    let psi = output_weight(flag, h);
    assert(u =~= key + seq![col, val, pow]);
    lemma_output_side(e, c, h);
    lemma_same_flag(e, c, c);
    lemma_modulus();
    lemma_small_rows(c, c.e, r);
    assert forall|i: int, en: Entry| 0 <= i < c.e.len() && i != r implies #[trigger] psi(i, en)
        == 0 by {
        let head = seq![i + flag];
        assert(seq![i + flag, en.col, en.val, en.pow] =~= head + seq![en.col, en.val, en.pow]);
        lemma_small_same(i + flag, r + flag);
        lemma_parts_other(head, key, en, col, val, pow, 0);
    }
    assert forall|k: int| 0 <= k < c.e[r].len() implies psi(r, #[trigger] c.e[r][k]) == 1 * one_if(
        entry_is(c.e[r][k], col, val, pow),
    ) by {
        let en = c.e[r][k];
        assert(u.len() == 4);
        assert(seq![r + flag, en.col, en.val, en.pow] =~= key + seq![en.col, en.val, en.pow]);
        lemma_parts_entry(key, key, en, col, val, pow);
    }
    lemma_suffix_tally(c, c.e, r, 1, col, val, pow, psi);
}

/// The row lengths of a matrix whose entries are on the suffix columns.
pub proof fn lemma_row_fits(c: CircuitView, rows: Seq<Seq<Entry>>, r: int)
    requires
        crate::sparse::circuit_fits(c, 1),
        rows == c.a || rows == c.c || rows == c.d || rows == c.e,
        columns_from(rows, c.weight_len),
        0 <= r < rows.len(),
    ensures
        rows[r].len() <= size_limit(),
        rows[r].len() < modulus(),
{
    lemma_modulus();
    lemma_small_rows(c, rows, r);
    assert forall|k: int| 0 <= k < rows[r].len() implies c.weight_len <= (#[trigger] rows[r][k]).col
        < usize::MAX by {}
    lemma_row_short(rows, c.weight_len, usize::MAX as int, r);
    assert(suffix_quads(c, rows).len() <= all_suffix_quads(c).len());
}

/// Where the rule on what the lookup rows write holds of a program and a circuit, the fifth
/// matrix has the rows that the program compiles to.
pub proof fn lemma_outputs_bound(w: Compiled, c: CircuitView, r: int)
    requires
        w.ready(),
        registrable(w.encoding(), c),
        parameters_apart(c),
        parameters_apart(w.circuit()),
        sides_match(
            circuit_vectors(w.encoding(), c),
            eq_outputs(circuit_profile(w.encoding(), c)),
        ),
        0 <= r < w.encoding().lu_line,
        columns_differ(w.circuit().e[r]),
    ensures
        rows_agree(c.e[r], w.circuit().e[r]),
{
    let e = w.encoding();
    let d = w.circuit();
    let f = circuit_vectors(e, c);
    let g = circuit_vectors(e, d);
    let x = eq_outputs(circuit_profile(e, c));
    let y = eq_outputs(circuit_profile(e, d));
    lemma_same_flag(e, c, d);
    assert(x.right =~= y.right);
    assert forall|i: int| 0 <= i < x.right.len() implies block_over_program(
        #[trigger] x.right[i],
    ) by {
        assert(i == 0 || i == 1 || i == 2);
    }
    assert forall|col: int, val: int, pow: int|
        0 <= col < usize::MAX && 0 <= pow < usize::MAX implies cong(
        #[trigger] tally(c.e[r], col, val, pow),
        tally(d.e[r], col, val, pow),
    ) by {
        let u = seq![r + circuit_profile(e, c).row_flag, col, val, pow];
        let h = parts_are(u);
        lemma_output_count(e, c, r, col, val, pow);
        lemma_output_count(e, d, r, col, val, pow);
        lemma_eq_outputs(w, h);
        lemma_left_same(e, c, d, x, y, u);
        reveal_with_fuel(blocks_sum, 2);
        assert(blocks_sum(f, x.left, h, 1) == block_sum(f, x.left[0], h));
        assert(blocks_sum(g, y.left, h, 1) == block_sum(g, y.left[0], h));
    }
    lemma_small_rows(c, c.e, r);
    lemma_small_rows(d, d.e, r);
    lemma_row_fits(c, c.e, r);
    lemma_row_fits(d, d.e, r);
    lemma_counts_agree(c.e[r], d.e[r]);
}

/// The counts of a plain row of the third matrix.
proof fn lemma_product_count(
    e: EncodingView,
    c: CircuitView,
    r: int,
    col: int,
    val: int,
    pow: int,
)
    requires
        registrable(e, c),
        parameters_apart(c),
        0 <= r < e.cons_line,
        is_lin_column(e)[r] == 0,
        0 <= col < usize::MAX,
        0 <= pow < usize::MAX,
    ensures
        ({
            let p = circuit_profile(e, c);
            let h = parts_are(seq![r, col, val, pow]);
            block_sum(circuit_vectors(e, c), eq_products(p).left[0], h) == tally(
                c.c[r],
                col,
                val,
                pow,
            )
        }),
{
    let key = seq![r];
    let u = seq![r, col, val, pow];
    let h = parts_are(u);
    let psi = product_weight(e, h);
    assert(u =~= key + seq![col, val, pow]);
    lemma_product_side(e, c, h);
    lemma_modulus();
    lemma_small_rows(c, c.c, r);
    assert forall|i: int, en: Entry| 0 <= i < c.c.len() && i != r implies #[trigger] psi(i, en)
        == 0 by {
        let head = seq![i];
        assert(seq![i, en.col, en.val, en.pow] =~= head + seq![en.col, en.val, en.pow]);
        lemma_small_same(i, r);
        lemma_parts_other(head, key, en, col, val, pow, 0);
        assert((1 - is_lin_column(e)[i]) * 0 == 0);
    }
    assert forall|k: int| 0 <= k < c.c[r].len() implies psi(r, #[trigger] c.c[r][k]) == 1 * one_if(
        entry_is(c.c[r][k], col, val, pow),
    ) by {
        let en = c.c[r][k];
        assert(seq![r, en.col, en.val, en.pow] =~= key + seq![en.col, en.val, en.pow]);
        lemma_parts_entry(key, key, en, col, val, pow);
        assert((1 - 0) * one_if(entry_is(en, col, val, pow)) == one_if(
            entry_is(en, col, val, pow),
        ));
    }
    lemma_suffix_tally(c, c.c, r, 1, col, val, pow, psi);
}

/// Where the rule on what the rows of products write holds of a program and a circuit, the
/// third matrix has the plain rows that the program compiles to.
pub proof fn lemma_products_bound(w: Compiled, c: CircuitView, r: int)
    requires
        w.ready(),
        registrable(w.encoding(), c),
        parameters_apart(c),
        parameters_apart(w.circuit()),
        sides_match(
            circuit_vectors(w.encoding(), c),
            eq_products(circuit_profile(w.encoding(), c)),
        ),
        0 <= r < w.encoding().cons_line,
        is_lin_column(w.encoding())[r] == 0,
        columns_differ(w.circuit().c[r]),
    ensures
        rows_agree(c.c[r], w.circuit().c[r]),
{
    let e = w.encoding();
    let d = w.circuit();
    let f = circuit_vectors(e, c);
    let g = circuit_vectors(e, d);
    let x = eq_products(circuit_profile(e, c));
    let y = eq_products(circuit_profile(e, d));
    assert(x.right =~= y.right);
    assert forall|i: int| 0 <= i < x.right.len() implies block_over_program(
        #[trigger] x.right[i],
    ) by {
        assert(i == 0 || i == 1 || i == 2);
    }
    assert forall|col: int, val: int, pow: int|
        0 <= col < usize::MAX && 0 <= pow < usize::MAX implies cong(
        #[trigger] tally(c.c[r], col, val, pow),
        tally(d.c[r], col, val, pow),
    ) by {
        let u = seq![r, col, val, pow];
        let h = parts_are(u);
        lemma_product_count(e, c, r, col, val, pow);
        lemma_product_count(e, d, r, col, val, pow);
        lemma_eq_products(w, h);
        lemma_left_same(e, c, d, x, y, u);
        reveal_with_fuel(blocks_sum, 2);
        assert(blocks_sum(f, x.left, h, 1) == block_sum(f, x.left[0], h));
        assert(blocks_sum(g, y.left, h, 1) == block_sum(g, y.left[0], h));
    }
    lemma_small_rows(c, c.c, r);
    lemma_small_rows(d, d.c, r);
    lemma_row_fits(c, c.c, r);
    lemma_row_fits(d, d.c, r);
    lemma_counts_agree(c.c[r], d.c[r]);
}

/// The type of a lookup row.
proof fn lemma_type_count(e: EncodingView, c: CircuitView, r: int, tag: int)
    requires
        registrable(e, c),
        0 <= r < e.lu_line,
    ensures
        block_sum(
            circuit_vectors(e, c),
            eq_types(circuit_profile(e, c)).left[0],
            parts_are(seq![r, tag]),
        ) == one_if(cong(c.tp[r], tag)),
{
    let u = seq![r, tag];
    let h = parts_are(u);
    lemma_type_side(e, c, h);
    lemma_modulus();
    let g = |j: int| h(seq![j, c.tp[j]]);
    assert forall|j: int| 0 <= j < e.lu_line && j != r implies #[trigger] g(j) == 0 by {
        let v = seq![j, c.tp[j]];
        lemma_small_same(j, r);
        if same_elements(v, u) {
            assert(cong(v[0], u[0]));
        }
    }
    lemma_sum_single(e.lu_line, r, g);
    lemma_sum_eq(e.lu_line, g, |j: int| h(seq![j, c.tp[j]]));
    let v = seq![r, c.tp[r]];
    if cong(c.tp[r], tag) {
        assert forall|i: int| 0 <= i < v.len() implies cong(#[trigger] v[i], u[i]) by {
            assert(i == 0 || i == 1);
        }
        assert(same_elements(v, u));
    } else if same_elements(v, u) {
        assert(cong(v[1], u[1]));
    }
}

/// Where the rule on the types holds of a program and a circuit, the lookup rows have the
/// types that the program compiles to.
pub proof fn lemma_types_bound(w: Compiled, c: CircuitView, r: int)
    requires
        w.ready(),
        registrable(w.encoding(), c),
        sides_match(
            circuit_vectors(w.encoding(), c),
            eq_types(circuit_profile(w.encoding(), c)),
        ),
        0 <= r < w.encoding().lu_line,
    ensures
        cong(c.tp[r], w.circuit().tp[r]),
{
    let e = w.encoding();
    let d = w.circuit();
    let f = circuit_vectors(e, c);
    let g = circuit_vectors(e, d);
    let x = eq_types(circuit_profile(e, c));
    let y = eq_types(circuit_profile(e, d));
    assert(x.right =~= y.right);
    assert forall|i: int| 0 <= i < x.right.len() implies block_over_program(
        #[trigger] x.right[i],
    ) by {
        assert(i == 0 || i == 1 || i == 2);
    }
    let tag = d.tp[r];
    let u = seq![r, tag];
    let h = parts_are(u);
    lemma_type_count(e, c, r, tag);
    lemma_type_count(e, d, r, tag);
    lemma_eq_types(w, h);
    lemma_left_same(e, c, d, x, y, u);
    reveal_with_fuel(blocks_sum, 2);
    assert(blocks_sum(f, x.left, h, 1) == block_sum(f, x.left[0], h));
    assert(blocks_sum(g, y.left, h, 1) == block_sum(g, y.left[0], h));
    lemma_modulus();
    lemma_small_same(one_if(cong(c.tp[r], tag)), 1);
}

} // verus!
