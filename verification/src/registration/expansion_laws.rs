//! The entries of products and convolutions are those of their families.
use vstd::prelude::*;
use vstd::arithmetic::div_mod::*;
use vstd::arithmetic::power2::*;
use crate::circuit::{CircuitView, Entry};
use crate::compiler::{cell, cons_len};
use crate::sparse::{
    cumulated, lemma_prefix_group, lemma_suffix_group, not_empty, prefix_group, quads, suffix_group,
    suffix_lens, suffix_quads,
};
use crate::sumcheck::lemma_log2_ceil;
use crate::sums::{lemma_sum_add, lemma_sum_eq, sum_to};
use super::cells::{lemma_entry_cells, lemma_family_cells, lemma_prefix_cells};
use super::certificate::{circuit_vectors, registrable};
use super::columns::{lemma_entry_rows, lemma_family_rows_len, lemma_rows_len};
use super::compiled_laws::{Compiled, instr_total, lemma_instr, lemma_instr_rows, lemma_linear_row};
use super::encode::{EncodingView, counters_at, operands_of};
use super::equal_laws::{
    lemma_block_range, lemma_fam_num, lemma_family_rows_of, lemma_pow2_pos, lemma_row_starts,
    lemma_x_rows_of,
};
use super::family::{ColBase, FamilyView, NUM_FAMILIES, RowSpec, families_of, lemma_families};
use super::family_laws::{lemma_entry_coordinates, lemma_lens};
use super::matrix_laws::{
    lemma_quads_total, lemma_row_both, lemma_segment, lemma_segment_len, matrix_of, quad_weight,
    quads_total, row_part, row_total,
};
use super::registrar::slacks_fit;
use super::relation::{
    BlockView, Tab, eq_expansion, fam_ind, family_block, family_col, family_row, lin_value,
    masked_block,
};
use super::tallies::{
    block_sum, cells_at, lemma_block_first, lemma_lins, lemma_sum_parts, num_at, parts_at,
};
use super::witness::{
    circuit_profile, coordinates, is_lin_column, lemma_share_sum, linear_at, masked, power_of,
    share, share_sum, sides_of, slacks_of, wide, x_row, x_rows,
};

verus! {

/// The weight of the entries of products and convolutions in a matrix.
pub open spec fn lin_weight(e: EncodingView, h: spec_fn(Seq<int>) -> int, m: int) -> spec_fn(
    int,
    Entry,
) -> int {
    |r: int, en: Entry| is_lin_column(e)[r] * h(seq![m, r, en.col, en.val, en.pow])
}

/// The mask of a matrix.
pub open spec fn mask_of(m: int) -> Tab {
    if m == 0 {
        Tab::MaskA
    } else if m == 1 {
        Tab::MaskB
    } else {
        Tab::MaskC
    }
}

/// A masked block is the sum over the entries of its matrix.
#[verifier::rlimit(40)]
#[verifier::spinoff_prover]
pub proof fn lemma_masked_block(
    e: EncodingView,
    c: CircuitView,
    h: spec_fn(Seq<int>) -> int,
    m: int,
)
    requires
        registrable(e, c),
        0 <= m < 3,
    ensures
        block_sum(
            circuit_vectors(e, c),
            masked_block(circuit_profile(e, c), mask_of(m), m),
            h,
        ) == quads_total(
            suffix_quads(c, matrix_of(c, m)),
            quad_weight(lin_weight(e, h, m), c.weight_len),
        ),
{
    let f = circuit_vectors(e, c);
    let p = circuit_profile(e, c);
    let b = masked_block(p, mask_of(m), m);
    let wl = c.weight_len;
    let gr = suffix_group(c);
    let len = wide(gr.row.len() as int);
    let all = suffix_quads(c, matrix_of(c, m));
    let lo = cumulated(suffix_lens(c), m);
    let n = all.len() as int;
    let phi = quad_weight(lin_weight(e, h, m), wl);
    lemma_suffix_group(c, 1);
    lemma_entry_rows(c);
    lemma_segment_len(c, 0);
    lemma_segment_len(c, 1);
    lemma_segment_len(c, 2);
    reveal_with_fuel(cumulated, 2);
    lemma_log2_ceil(gr.row.len() as int);
    let g = |k: int| phi(all[k]);
    assert forall|t: int| 0 <= t < len implies #[trigger] num_at(f, b, t) == if lo <= t < lo + n {
        linear_at(e, c, t)
    } else {
        0
    } by {
        let gt = cells_at(f, len, t);
        lemma_lins(gt);
        lemma_entry_cells(e, c, t);
        assert(gt(mask_of(m)) == if lo <= t < lo + n {
            linear_at(e, c, t)
        } else {
            0
        });
    }
    assert forall|k: int| 0 <= k < n implies num_at(f, b, lo + k) * h(parts_at(f, b, lo + k))
        == #[trigger] g(k) by {
        let t = lo + k;
        let gt = cells_at(f, len, t);
        lemma_lins(gt);
        lemma_entry_cells(e, c, t);
        lemma_segment(c, m, k);
        assert(gt(Tab::Row) == gr.row[t] && gt(Tab::Col) == gr.col[t] && gt(Tab::Val) == gr.val[t]
            && gt(Tab::Pow) == gr.pow[t]);
        assert(parts_at(f, b, t) =~= seq![
            m,
            all[k].row,
            all[k].col + wl,
            all[k].val,
            all[k].pow,
        ]);
        assert(num_at(f, b, t) == is_lin_column(e)[all[k].row]);
    }
    lemma_block_range(f, b, h, lo, n, g);
    lemma_sum_eq(n, g, |k: int| phi(all[k]));
}

/// The block of the entries on the prefix columns.
pub open spec fn prefix_block(e: EncodingView, c: CircuitView) -> BlockView {
    eq_expansion(circuit_profile(e, c)).left[3]
}

/// If no entry is on the prefix columns, the first row is plain.
proof fn lemma_no_prefix(w: Compiled)
    requires
        w.ready(),
        w.weights.len() >= 1,
        quads(
            w.circuit().b,
            0,
            w.weights.len() as int,
            w.circuit().b.len() as int,
        ).len() == 0,
    ensures
        is_lin_column(w.encoding())[0] == 0,
{
    let e = w.encoding();
    let c = w.circuit();
    let q = w.instrs.len() as int;
    let wl = w.weights.len() as int;
    lemma_rows_len(e, q);
    lemma_log2_ceil(e.cons_line);
    lemma_pow2_pos(crate::sumcheck::log2_ceil(e.cons_line));
    if e.cons_line > 0 && is_lin_column(e)[0] != 0 {
        let at = super::zero_laws::lemma_cons_row(e, q, 0);
        let i = at.0;
        lemma_instr(w, i);
        lemma_instr_rows(w, i);
        lemma_linear_row(w, i, at.1);
        let s = cons_len(w.instrs[i]) - 1;
        assert(c.b[e.cr[i] + s] == seq![cell(0)]);
        lemma_prefix_entry(c.b, wl, c.b.len() as int, e.cr[i] + s);
    }
}

/// An entry on the prefix columns is collected.
proof fn lemma_prefix_entry(rows: Seq<Seq<Entry>>, wl: int, n: int, r: int)
    requires
        0 <= r < n <= rows.len(),
        rows[r] == seq![cell(0)],
        wl >= 1,
    ensures
        quads(rows, 0, wl, n).len() > 0,
    decreases n,
{
    if r < n - 1 {
        lemma_prefix_entry(rows, wl, n - 1, r);
    } else {
        reveal_with_fuel(crate::sparse::row_quads, 2);
    }
}

/// The block of the prefix entries is the sum over them, or over a zero entry if there is
/// none.
#[verifier::rlimit(40)]
#[verifier::spinoff_prover]
pub proof fn lemma_prefix_side(e: EncodingView, c: CircuitView, h: spec_fn(Seq<int>) -> int)
    requires
        registrable(e, c),
    ensures
        block_sum(circuit_vectors(e, c), prefix_block(e, c), h) == quads_total(
            not_empty(quads(c.b, 0, c.weight_len, c.b.len() as int)),
            quad_weight(lin_weight(e, h, 1), 0),
        ),
{
    let f = circuit_vectors(e, c);
    let b = prefix_block(e, c);
    let gr = prefix_group(c);
    let n = gr.row.len() as int;
    let len = wide(n);
    let some = quads(c.b, 0, c.weight_len, c.b.len() as int);
    let all = not_empty(some);
    let phi = quad_weight(lin_weight(e, h, 1), 0);
    lemma_prefix_group(c, 1);
    lemma_log2_ceil(n);
    assert(n == all.len()) by {
        reveal(prefix_group);
    }
    let g = |k: int| phi(all[k]);
    assert forall|t: int| 0 <= t < len implies #[trigger] num_at(f, b, t) == if t < n {
        is_lin_column(e)[gr.row[t]]
    } else {
        0
    } by {
        let gt = cells_at(f, len, t);
        lemma_lins(gt);
        lemma_prefix_cells(e, c, t);
        assert(gt(Tab::MaskPre) == if t < n {
            is_lin_column(e)[gr.row[t]]
        } else {
            0
        });
    }
    assert forall|t: int| 0 <= t < n implies num_at(f, b, t) * h(parts_at(f, b, t)) == #[trigger] g(
        t,
    ) by {
        let gt = cells_at(f, len, t);
        lemma_lins(gt);
        lemma_prefix_cells(e, c, t);
        reveal(prefix_group);
        assert(gr.row[t] == all[t].row && gr.col[t] == all[t].col && gr.val[t] == all[t].val
            && gr.pow[t] == all[t].pow);
        assert(gt(Tab::BRow) == gr.row[t] && gt(Tab::BCol) == gr.col[t] && gt(Tab::BVal)
            == gr.val[t] && gt(Tab::BPow) == gr.pow[t]);
        assert(parts_at(f, b, t) =~= seq![
            1,
            all[t].row,
            all[t].col + 0,
            all[t].val,
            all[t].pow,
        ]);
    }
    lemma_block_first(f, b, h, n, g);
    lemma_sum_eq(n, g, |k: int| phi(all[k]));
}

/// The block of the prefix entries is the sum over them.
#[verifier::rlimit(40)]
#[verifier::spinoff_prover]
pub proof fn lemma_prefix_block(w: Compiled, h: spec_fn(Seq<int>) -> int)
    requires
        w.ready(),
        slacks_fit(w.encoding(), w.circuit()),
    ensures
        ({
            let e = w.encoding();
            let c = w.circuit();
            block_sum(circuit_vectors(e, c), prefix_block(e, c), h) == quads_total(
                quads(c.b, 0, c.weight_len, c.b.len() as int),
                quad_weight(lin_weight(e, h, 1), 0),
            )
        }),
{
    let e = w.encoding();
    let c = w.circuit();
    let gr = prefix_group(c);
    let some = quads(c.b, 0, c.weight_len, c.b.len() as int);
    let all = not_empty(some);
    let phi = quad_weight(lin_weight(e, h, 1), 0);
    let g = |k: int| phi(all[k]);
    lemma_prefix_group(c, 1);
    lemma_prefix_side(e, c, h);
    if some.len() == 0 {
        reveal(prefix_group);
        let p = circuit_profile(e, c);
        let slacks = slacks_of(e, c, p.x_len);
        let col = super::witness::prefix_column(c, |t: int| e.weight_len - 1 - gr.col[t]);
        let before = suffix_group(c).row.len() as int;
        lemma_suffix_group(c, 1);
        lemma_log2_ceil(before);
        let k = wide(before);
        assert(slacks[k + 0] == col[0]);
        assert(0 <= slacks[k]);
        assert(col[0] == e.weight_len - 1);
        lemma_no_prefix(w);
        reveal_with_fuel(sum_to, 2);
        let y = h(seq![1, 0, 0, 0, 0]);
        assert(0 * y == 0);
        assert(g(0) == 0);
    }
}

/// The weights of the rows of a matrix.
pub open spec fn whole_row(rows: Seq<Seq<Entry>>, psi: spec_fn(int, Entry) -> int) -> spec_fn(
    int,
) -> int {
    |r: int| row_total(rows[r], r, psi)
}

/// The entries of the second matrix on both ranges of columns, instruction by
/// instruction.
pub proof fn lemma_second_matrix(w: Compiled, psi: spec_fn(int, Entry) -> int)
    requires
        w.ready(),
    ensures
        ({
            let e = w.encoding();
            let c = w.circuit();
            let wl = w.weights.len() as int;
            let g = whole_row(c.b, psi);
            quads_total(quads(c.b, 0, wl, c.b.len() as int), quad_weight(psi, 0)) + quads_total(
                suffix_quads(c, c.b),
                quad_weight(psi, wl),
            ) == sum_to(w.instrs.len() as int, |i: int| instr_total(w, g, false, i))
        }),
{
    let e = w.encoding();
    let c = w.circuit();
    let wl = w.weights.len() as int;
    let q = w.instrs.len() as int;
    let top = usize::MAX as int;
    let n = c.b.len() as int;
    let g = whole_row(c.b, psi);
    lemma_quads_total(c.b, 0, wl, n, psi);
    lemma_quads_total(c.b, wl, top, n, psi);
    let a = |r: int| row_part(c.b[r], r, 0, wl, psi);
    let b = |r: int| row_part(c.b[r], r, wl, top, psi);
    lemma_sum_add(n, a, b);
    assert forall|r: int| 0 <= r < n implies #[trigger] g(r) == a(r) + b(r) by {
        assert(crate::circuit::row_in_range(c.b[r], c.z_len));
        lemma_row_both(c.b[r], r, wl, top, psi);
    }
    lemma_sum_eq(n, g, |r: int| a(r) + b(r));
    lemma_sum_eq(n, a, |r: int| row_part(c.b[r], r, 0, wl, psi));
    lemma_sum_eq(n, b, |r: int| row_part(c.b[r], r, wl, top, psi));
    lemma_row_starts(e);
    let start = |i: int| counters_at(e, i).cr;
    lemma_sum_parts(q, start, g);
    let u = |i: int| sum_to(start(i + 1) - start(i), |r: int| g(start(i) + r));
    let v = |i: int| instr_total(w, g, false, i);
    assert forall|i: int| 0 <= i < q implies #[trigger] u(i) == v(i) by {
        lemma_instr(w, i);
        let d = start(i + 1) - start(i);
        let st = start(i);
        lemma_sum_eq(d, |r: int| g(start(i) + r), |s: int| g(st + s));
    }
    lemma_sum_eq(q, u, v);
}

/// What an entry of a family says: the matrix, the row, the column, the coefficient and
/// the power.
pub open spec fn family_parts(e: EncodingView, f: FamilyView, i: int, t: int) -> Seq<int> {
    let o = operands_of(e, i);
    let d = coordinates(sides_of(f, o), t);
    seq![
        f.matrix,
        e.cr[i] + match f.row {
            RowSpec::Digit(j) => d[j as int],
            RowSpec::Offset(s) => o[s as int],
        },
        (match f.col_base {
            ColBase::Operand(s) => o[s as int],
            ColBase::Advice => e.aux[i],
            ColBase::Output => e.out[i],
            ColBase::Unit => 0,
        }) + t,
        1,
        power_of(f, o, d, t, f.pow.len() as int),
    ]
}

/// The weights of the entries of an instruction in a family.
pub open spec fn family_total(
    e: EncodingView,
    h: spec_fn(Seq<int>) -> int,
    k: int,
    i: int,
) -> int {
    sum_to(
        share(e, families_of()[k], i),
        |t: int| h(family_parts(e, families_of()[k], i, t)),
    )
}

/// The block of a family, instruction by instruction.
#[verifier::rlimit(60)]
#[verifier::spinoff_prover]
pub proof fn lemma_family_block(w: Compiled, h: spec_fn(Seq<int>) -> int, k: int)
    requires
        w.ready(),
        0 <= k < NUM_FAMILIES,
    ensures
        block_sum(
            circuit_vectors(w.encoding(), w.circuit()),
            family_block(circuit_profile(w.encoding(), w.circuit()), k),
            h,
        ) == sum_to(w.instrs.len() as int, |i: int| family_total(w.encoding(), h, k, i)),
{
    let e = w.encoding();
    let c = w.circuit();
    let f = circuit_vectors(e, c);
    let p = circuit_profile(e, c);
    let b = family_block(p, k);
    let q = w.instrs.len() as int;
    let fam = families_of()[k];
    let len = wide(p.x_len);
    let lo = cumulated(p.family_lens, k);
    let n = p.family_lens[k];
    lemma_lens(e);
    lemma_families();
    lemma_log2_ceil(p.x_len);
    lemma_pow2_pos(crate::sumcheck::log2_ceil(p.x_len));
    lemma_family_rows_len(e, k, q);
    lemma_fam_num(e, c, k, 0);
    let g = |y: int| h(parts_at(f, b, lo + y));
    assert forall|t: int| 0 <= t < len implies #[trigger] num_at(f, b, t) == if lo <= t < lo + n {
        1int
    } else {
        0
    } by {
        lemma_lins(cells_at(f, len, t));
        lemma_fam_num(e, c, k, t);
        assert(cells_at(f, len, t)(fam_ind(p, k)) == if lo <= t < lo + n {
            1int
        } else {
            0
        });
    }
    assert forall|y: int| 0 <= y < n implies num_at(f, b, lo + y) * h(parts_at(f, b, lo + y))
        == #[trigger] g(y) by {
        assert(num_at(f, b, lo + y) == 1);
        assert(1 * g(y) == g(y));
    }
    lemma_block_range(f, b, h, lo, n, g);
    let start = |i: int| share_sum(e, fam, i);
    assert forall|i: int, j: int| 0 <= i <= j <= q implies #[trigger] start(i) <= #[trigger] start(
        j,
    ) by {
        lemma_share_sum(e, k, i, j);
    }
    lemma_sum_parts(q, start, g);
    let u = |i: int| sum_to(start(i + 1) - start(i), |r: int| g(start(i) + r));
    let v = |i: int| family_total(e, h, k, i);
    assert forall|i: int| 0 <= i < q implies #[trigger] u(i) == v(i) by {
        let d = start(i + 1) - start(i);
        let a1 = |r: int| g(start(i) + r);
        let a2 = |t: int| h(family_parts(e, fam, i, t));
        assert forall|t: int| 0 <= t < d implies #[trigger] a1(t) == a2(t) by {
            let y = start(i) + t;
            lemma_family_rows_of(e, k, q, i, t);
            lemma_x_rows_of(e, NUM_FAMILIES as int, k, y);
            lemma_entry_coordinates(e, k, i, t);
            lemma_family_cells(e, c, lo + y);
            let row = x_row(e, fam, i, t);
            assert(x_rows(e, NUM_FAMILIES as int)[lo + y] == row);
            let gy = cells_at(f, len, lo + y);
            lemma_lins(gy);
            lemma_family_lins(e, c, k, lo + y, i, t);
            assert(parts_at(f, b, lo + y) =~= family_parts(e, fam, i, t));
        }
        lemma_sum_eq(d, a1, a2);
    }
    lemma_sum_eq(q, u, v);
}

/// The row and the column of an entry of a family.
proof fn lemma_family_lins(e: EncodingView, c: CircuitView, k: int, x: int, i: int, t: int)
    requires
        registrable(e, c),
        0 <= k < NUM_FAMILIES,
        0 <= i < e.opcode.len(),
        0 <= t < share(e, families_of()[k], i),
        x == cumulated(circuit_profile(e, c).family_lens, k) + share_sum(e, families_of()[k], i)
            + t,
        0 <= x < circuit_profile(e, c).x_len,
        x_rows(e, NUM_FAMILIES as int)[x] == x_row(e, families_of()[k], i, t),
    ensures
        ({
            let f = circuit_vectors(e, c);
            let p = circuit_profile(e, c);
            let g = cells_at(f, wide(p.x_len), x);
            let fam = families_of()[k];
            &&& lin_value(family_row(fam), g) == family_parts(e, fam, i, t)[1]
            &&& lin_value(family_col(p, k), g) == family_parts(e, fam, i, t)[2]
            &&& g(Tab::XPow) == family_parts(e, fam, i, t)[4]
        }),
{
    let f = circuit_vectors(e, c);
    let p = circuit_profile(e, c);
    let g = cells_at(f, wide(p.x_len), x);
    let fam = families_of()[k];
    let row = x_row(e, fam, i, t);
    lemma_log2_ceil(p.x_len);
    lemma_lins(g);
    lemma_family_cells(e, c, x);
    lemma_entry_coordinates(e, k, i, t);
    assert(g(Tab::Identity) == x && g(Tab::XBase) == row.base && g(Tab::XCr) == row.cr);
    match fam.row {
        RowSpec::Digit(j) => {
            assert(g(Tab::XDigit(j)) == row.digits[j as int]);
        },
        RowSpec::Offset(s) => {
            assert(g(Tab::XOp(s)) == row.ops[s as int]);
        },
    }
    match fam.col_base {
        ColBase::Operand(s) => {
            assert(g(Tab::XOp(s)) == row.ops[s as int]);
        },
        ColBase::Advice => {
            assert(g(Tab::XAux) == row.aux);
        },
        ColBase::Output => {
            assert(g(Tab::XOut) == row.out);
        },
        ColBase::Unit => {},
    }
}

} // verus!
