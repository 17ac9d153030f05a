//! The vectors of a compiled program keep the rules on what its rows hold.
use vstd::prelude::*;
use vstd::arithmetic::power2::*;
use crate::circuit::{CircuitView, Entry, LookupType, QUOTIENT_BOUND};
use crate::compiler::{
    a_rows, b_rows, c_rows, cell, circuit_of, cons_len, d_rows, e_rows, instr_error, lemma_no_error,
    lookup_len, lookup_tags, validity_error,
};
use crate::field::cong;
use crate::instruction::Instruction;
use crate::replay::row_at;
use crate::sparse::{
    counts, lemma_prefix_group, lemma_suffix_group, not_empty, one_if, prefix_group, quads,
    suffix_group, suffix_quads,
};
use crate::sumcheck::{gate_value, lemma_log2_ceil};
use crate::sums::{lemma_sum_add, lemma_sum_eq, lemma_sum_zero, sum_to};
use super::accepted::check_holds;
use super::cells::{lemma_entry_cells, lemma_instr_cells, lemma_lu_cells, lemma_prefix_cells};
use super::certificate::{circuit_vectors, column_of, columns_of, registrable};
use super::columns::{encoding_ready, lemma_entry_rows, lemma_ready, lemma_rows_len};
use super::compiled::{lemma_row_counts, lemma_rows_at};
use super::encode::{
    EncodingView, counters_at, delta_at, encoding_of, instr_operands, law_deltas_of_instruction,
    lemma_counters, one_hot, opcode_of, operands_of,
};
use super::equal_laws::{
    lemma_block_range, lemma_cons_rows_of, lemma_lins_of, lemma_row_starts, lemma_sel,
};
use super::matrix_laws::{
    lemma_quad_source, lemma_quads_total, lemma_row_whole, lemma_segment, lemma_segment_len,
    quad_weight, quads_total, row_part, row_total,
};
use super::relation::{
    BlockView, Tab, check_inputs, check_plain_powers, check_prefix_powers, eq_outputs, eq_products,
    eq_types, ind, seg_ind,
};
use super::tallies::{
    block_sum, blocks_sum, cells_at, lemma_block_first, lemma_lins, lemma_sum_parts, num_at,
    parts_at, sides_meet,
};
use super::witness::{
    CTR_AUX, CTR_CR, CTR_LR, CTR_OUT, after, circuit_profile, is_lin_column, is_linear, linear_at,
    lookup_row_of, lu_row, lu_rows, wide,
};
use super::zero_laws::{lemma_cons_row, lemma_linear_bit, lemma_row_cells};

verus! {

/// A program without errors, its encoding and the circuit that it compiles to.
pub ghost struct Compiled {
    pub instrs: Seq<Instruction>,
    pub weights: Seq<i64>,
    pub input_len: int,
    pub aux_start: int,
    pub table: Seq<(int, int, int)>,
}

impl Compiled {
    /// The encoding of the program.
    pub open spec fn encoding(self) -> EncodingView {
        encoding_of(self.instrs, self.weights.len() as int, self.input_len, self.aux_start)
    }

    /// The circuit that the program compiles to.
    pub open spec fn circuit(self) -> CircuitView {
        circuit_of(self.instrs, self.weights, self.input_len, self.aux_start, self.table)
    }

    /// The program has no errors, and what is to be registered fits in memory.
    pub open spec fn ready(self) -> bool {
        &&& validity_error(
            self.instrs,
            self.weights.len() as int,
            self.input_len,
            self.aux_start,
            self.table,
        ) is None
        &&& registrable(self.encoding(), self.circuit())
    }
}

/// What is known of an instruction of a compiled program.
pub proof fn lemma_instr(w: Compiled, i: int)
    requires
        w.ready(),
        0 <= i < w.instrs.len(),
    ensures
        ({
            let e = w.encoding();
            let instr = w.instrs[i];
            let wl = w.weights.len() as int;
            &&& e.opcode[i] == opcode_of(instr)
            &&& operands_of(e, i) == instr_operands(instr)
            &&& delta_at(e, i).cr == cons_len(instr)
            &&& delta_at(e, i).lr == lookup_len(instr)
            &&& counters_at(e, i).cr == e.cr[i]
            &&& counters_at(e, i).lr == e.lr[i]
            &&& counters_at(e, i + 1).cr == e.cr[i] + cons_len(instr)
            &&& counters_at(e, i + 1).lr == e.lr[i] + lookup_len(instr)
            &&& 0 <= e.cr[i]
            &&& 0 <= e.lr[i]
            &&& e.cr[i] + cons_len(instr) <= e.cons_line
            &&& e.lr[i] + lookup_len(instr) <= e.lu_line
            &&& wl <= e.out[i] <= w.aux_start <= e.aux[i]
            &&& one_hot(e, i)
            &&& instr_error(i as usize, instr, e.out[i], w.aux_start, wl, w.table) is None
        }),
{
    let e = w.encoding();
    let wl = w.weights.len() as int;
    assert(operands_of(e, i) =~= instr_operands(w.instrs[i]));
    law_deltas_of_instruction(w.instrs[i]);
    lemma_ready(e, i);
    lemma_counters(e, 0, i);
    assert(e.out[i] == counters_at(e, i).out);
    lemma_no_error(w.instrs, i, wl + w.input_len, w.aux_start, wl, w.table);
    assert(one_hot(e, i));
}

/// The rows of an instruction of a compiled program.
pub proof fn lemma_instr_rows(w: Compiled, i: int)
    requires
        w.ready(),
        0 <= i < w.instrs.len(),
    ensures
        ({
            let e = w.encoding();
            let c = w.circuit();
            let instr = w.instrs[i];
            let out = e.out[i];
            let aux = e.aux[i];
            &&& a_rows(instr, out, aux).len() == cons_len(instr)
            &&& b_rows(instr, out, aux).len() == cons_len(instr)
            &&& c_rows(instr, out, aux).len() == cons_len(instr)
            &&& d_rows(instr, out, aux).len() == lookup_len(instr)
            &&& e_rows(instr, out, aux).len() == lookup_len(instr)
            &&& forall|r: int|
                0 <= r < cons_len(instr) ==> #[trigger] c.a[e.cr[i] + r] == a_rows(
                    instr,
                    out,
                    aux,
                )[r]
            &&& forall|r: int|
                0 <= r < cons_len(instr) ==> #[trigger] c.b[e.cr[i] + r] == b_rows(
                    instr,
                    out,
                    aux,
                )[r]
            &&& forall|r: int|
                0 <= r < cons_len(instr) ==> #[trigger] c.c[e.cr[i] + r] == c_rows(
                    instr,
                    out,
                    aux,
                )[r]
            &&& forall|r: int|
                0 <= r < lookup_len(instr) ==> #[trigger] c.d[e.lr[i] + r] == d_rows(
                    instr,
                    out,
                    aux,
                )[r]
            &&& forall|r: int|
                0 <= r < lookup_len(instr) ==> #[trigger] c.e[e.lr[i] + r] == e_rows(
                    instr,
                    out,
                    aux,
                )[r]
            &&& forall|r: int|
                0 <= r < lookup_len(instr) ==> #[trigger] c.tp[e.lr[i] + r] == lookup_tags(instr)[r]
        }),
{
    let e = w.encoding();
    let start = w.weights.len() + w.input_len;
    lemma_rows_at(w.instrs, i, w.instrs.len() as int, start, w.aux_start);
    lemma_row_counts(w.instrs[i], e.out[i], e.aux[i]);
}

/// Where a lookup row stands among those of its instruction.
pub proof fn lemma_lu_row(e: EncodingView, n: int, x: int) -> (at: (int, int))
    requires
        encoding_ready(e),
        0 <= n <= e.opcode.len(),
        0 <= x < lu_rows(e, n).len(),
    ensures
        0 <= at.0 < n,
        0 <= at.1 < delta_at(e, at.0).lr,
        x == e.lr[at.0] + at.1,
        lu_rows(e, n)[x] == lu_row(e, at.0),
    decreases n,
{
    lemma_rows_len(e, n - 1);
    assert(e.out[n - 1] == counters_at(e, n - 1).out);
    let before = lu_rows(e, n - 1).len() as int;
    if x < before {
        lemma_lu_row(e, n - 1, x)
    } else {
        (n - 1, x - before)
    }
}

/// Which rows belong to products and convolutions.
pub proof fn lemma_linear_row(w: Compiled, i: int, s: int)
    requires
        w.ready(),
        0 <= i < w.instrs.len(),
        0 <= s < cons_len(w.instrs[i]),
    ensures
        is_lin_column(w.encoding())[w.encoding().cr[i] + s] == is_linear(opcode_of(w.instrs[i])),
{
    let e = w.encoding();
    let q = w.instrs.len() as int;
    lemma_instr(w, i);
    lemma_cons_rows_of(e, q, i, s);
    lemma_rows_len(e, q);
}

/// The entries of the first two matrices in plain rows have no powers.
proof fn lemma_plain_row_pow(w: Compiled, r: int, j: int)
    requires
        w.ready(),
        0 <= r < w.encoding().cons_line,
        is_lin_column(w.encoding())[r] == 0,
    ensures
        0 <= j < w.circuit().a[r].len() ==> w.circuit().a[r][j].pow == 0,
        0 <= j < w.circuit().b[r].len() ==> w.circuit().b[r][j].pow == 0,
{
    let e = w.encoding();
    let q = w.instrs.len() as int;
    lemma_rows_len(e, q);
    let at = lemma_cons_row(e, q, r);
    lemma_instr(w, at.0);
    lemma_instr_rows(w, at.0);
    lemma_linear_row(w, at.0, at.1);
    assert(w.circuit().a[e.cr[at.0] + at.1] == a_rows(
        w.instrs[at.0],
        e.out[at.0],
        e.aux[at.0],
    )[at.1]);
    assert(w.circuit().b[e.cr[at.0] + at.1] == b_rows(
        w.instrs[at.0],
        e.out[at.0],
        e.aux[at.0],
    )[at.1]);
}

/// The entries of the lookup inputs have no powers, and are in rows of lookups.
proof fn lemma_lookup_row_pow(w: Compiled, r: int, j: int)
    requires
        w.ready(),
        0 <= r < w.encoding().lu_line,
        0 <= j < w.circuit().d[r].len(),
    ensures
        w.circuit().d[r][j].pow == 0,
        lu_rows(w.encoding(), w.instrs.len() as int)[r].1 == 1,
{
    let e = w.encoding();
    let q = w.instrs.len() as int;
    lemma_rows_len(e, q);
    let at = lemma_lu_row(e, q, r);
    lemma_instr(w, at.0);
    lemma_instr_rows(w, at.0);
    assert(w.circuit().d[e.lr[at.0] + at.1] == d_rows(
        w.instrs[at.0],
        e.out[at.0],
        e.aux[at.0],
    )[at.1]);
}

/// Plain rows carry no powers.
#[verifier::rlimit(40)]
#[verifier::spinoff_prover]
pub proof fn lemma_check_plain_powers(w: Compiled, chals: Seq<int>)
    requires
        w.ready(),
    ensures
        check_holds(
            circuit_vectors(w.encoding(), w.circuit()),
            check_plain_powers(circuit_profile(w.encoding(), w.circuit())),
            chals,
        ),
{
    let e = w.encoding();
    let c = w.circuit();
    let f = circuit_vectors(e, c);
    let p = circuit_profile(e, c);
    let x = check_plain_powers(p);
    let len = pow2(x.log_len as nat) as int;
    let gr = suffix_group(c);
    let n = gr.row.len() as int;
    lemma_entry_rows(c);
    lemma_suffix_group(c, 1);
    lemma_segment_len(c, 0);
    lemma_segment_len(c, 1);
    lemma_segment_len(c, 2);
    lemma_segment_len(c, 3);
    let top = usize::MAX as int;
    assert forall|j: int| 0 <= j < len implies cong(
        gate_value(x.gate, #[trigger] row_at(columns_of(f, x.tables, len), j), chals),
        0,
    ) by {
        let v = row_at(columns_of(f, x.tables, len), j);
        lemma_row_cells(f, x.tables, len, j);
        lemma_entry_cells(e, c, j);
        assert(v[0] == column_of(f, Tab::Pow, len)[j]);
        assert(v[1] == column_of(f, seg_ind(p, 0), len)[j]);
        assert(v[2] == column_of(f, seg_ind(p, 1), len)[j]);
        assert(v[3] == column_of(f, seg_ind(p, 3), len)[j]);
        assert(v[4] == column_of(f, Tab::MaskA, len)[j]);
        assert(v[5] == column_of(f, Tab::MaskB, len)[j]);
        let plain = v[1] + v[2] + v[3] - v[4] - v[5];
        reveal_with_fuel(gate_value, 7);
        assert(gate_value(x.gate, v, chals) == plain * v[0]);
        assert(0 * v[0] == 0);
        assert(plain * 0 == 0);
        if j < n {
            lemma_linear_bit(e, c, j);
            if j < after(c, 0) && linear_at(e, c, j) == 0 {
                lemma_segment(c, 0, j);
                let at = lemma_quad_source(c.a, c.weight_len, top, c.a.len() as int, j);
                lemma_plain_row_pow(w, at.0, at.1);
            } else if after(c, 0) <= j < after(c, 1) && linear_at(e, c, j) == 0 {
                let k = j - after(c, 0);
                lemma_segment(c, 1, k);
                let at = lemma_quad_source(c.b, c.weight_len, top, c.b.len() as int, k);
                lemma_plain_row_pow(w, at.0, at.1);
            } else if after(c, 2) <= j < after(c, 3) {
                let k = j - after(c, 2);
                lemma_segment(c, 3, k);
                let at = lemma_quad_source(c.d, c.weight_len, top, c.d.len() as int, k);
                lemma_lookup_row_pow(w, at.0, at.1);
            }
        }
    }
}

/// Plain rows carry no powers on the prefix columns.
#[verifier::rlimit(40)]
#[verifier::spinoff_prover]
pub proof fn lemma_check_prefix_powers(w: Compiled, chals: Seq<int>)
    requires
        w.ready(),
    ensures
        check_holds(
            circuit_vectors(w.encoding(), w.circuit()),
            check_prefix_powers(circuit_profile(w.encoding(), w.circuit())),
            chals,
        ),
{
    let e = w.encoding();
    let c = w.circuit();
    let f = circuit_vectors(e, c);
    let p = circuit_profile(e, c);
    let x = check_prefix_powers(p);
    let len = pow2(x.log_len as nat) as int;
    let gr = prefix_group(c);
    let n = gr.row.len() as int;
    lemma_prefix_group(c, 1);
    let all = quads(c.b, 0, c.weight_len, c.b.len() as int);
    lemma_rows_len(e, w.instrs.len() as int);
    assert forall|j: int| 0 <= j < len implies cong(
        gate_value(x.gate, #[trigger] row_at(columns_of(f, x.tables, len), j), chals),
        0,
    ) by {
        let v = row_at(columns_of(f, x.tables, len), j);
        lemma_row_cells(f, x.tables, len, j);
        lemma_prefix_cells(e, c, j);
        assert(v[0] == column_of(f, Tab::BPow, len)[j]);
        assert(v[1] == column_of(f, ind(0, p.b_pre_len), len)[j]);
        assert(v[2] == column_of(f, Tab::MaskPre, len)[j]);
        reveal_with_fuel(gate_value, 4);
        assert(gate_value(x.gate, v, chals) == (v[1] - v[2]) * v[0]);
        assert(0 * v[0] == 0);
        assert((v[1] - v[2]) * 0 == 0);
        if j < n {
            reveal(prefix_group);
            if all.len() == 0 {
                assert(not_empty(all)[0].pow == 0);
            } else {
                assert(not_empty(all) == all);
                let at = lemma_quad_source(c.b, 0, c.weight_len, c.b.len() as int, j);
                assert(gr.row[j] == at.0);
                let in_block = lemma_cons_row(e, w.instrs.len() as int, at.0);
                lemma_instr(w, in_block.0);
                lemma_linear_row(w, in_block.0, in_block.1);
                if is_lin_column(e)[at.0] == 0 {
                    lemma_plain_row_pow(w, at.0, at.1);
                }
            }
        }
    }
}

/// Only rows of lookups read inputs.
#[verifier::rlimit(40)]
#[verifier::spinoff_prover]
pub proof fn lemma_check_inputs(w: Compiled, chals: Seq<int>)
    requires
        w.ready(),
    ensures
        check_holds(
            circuit_vectors(w.encoding(), w.circuit()),
            check_inputs(circuit_profile(w.encoding(), w.circuit())),
            chals,
        ),
{
    let e = w.encoding();
    let c = w.circuit();
    let f = circuit_vectors(e, c);
    let p = circuit_profile(e, c);
    let x = check_inputs(p);
    let len = pow2(x.log_len as nat) as int;
    let gr = suffix_group(c);
    lemma_entry_rows(c);
    lemma_suffix_group(c, 1);
    lemma_segment_len(c, 3);
    lemma_rows_len(e, w.instrs.len() as int);
    lemma_log2_ceil(e.lu_line);
    let top = usize::MAX as int;
    let idx = Seq::new(
        (after(c, 3) - after(c, 2)) as nat,
        |k: int| lookup_row_of(c, after(c, 2) + k),
    );
    let rows = lu_rows(e, w.instrs.len() as int);
    assert forall|j: int| 0 <= j < len implies cong(
        gate_value(x.gate, #[trigger] row_at(columns_of(f, x.tables, len), j), chals),
        0,
    ) by {
        let v = row_at(columns_of(f, x.tables, len), j);
        lemma_row_cells(f, x.tables, len, j);
        assert(v[0] == column_of(f, Tab::CntL, len)[j]);
        assert(v[1] == column_of(f, Tab::IsLookup, len)[j]);
        assert(v[0] == counts(idx, len)[j]);
        reveal_with_fuel(gate_value, 4);
        assert(gate_value(x.gate, v, chals) == v[0] * (1 - v[1]));
        assert(0 * (1 - v[1]) == 0);
        assert(v[0] * 0 == 0);
        if !(j < e.lu_line && rows[j].1 == 1) {
            let g = |k: int| one_if(idx[k] == j);
            assert forall|k: int| 0 <= k < idx.len() implies #[trigger] g(k) == 0 by {
                let t = after(c, 2) + k;
                lemma_segment(c, 3, k);
                let at = lemma_quad_source(c.d, c.weight_len, top, c.d.len() as int, k);
                lemma_lookup_row_pow(w, at.0, at.1);
                assert(idx[k] == at.0);
            }
            lemma_sum_zero(idx.len() as int, g);
        } else {
            lemma_lu_cells(e, c, j);
        }
    }
}

/// The weights of a row of a matrix on the suffix columns.
pub open spec fn suffix_row(
    rows: Seq<Seq<Entry>>,
    wl: int,
    psi: spec_fn(int, Entry) -> int,
) -> spec_fn(int) -> int {
    |r: int| row_part(rows[r], r, wl, usize::MAX as int, psi)
}

/// The weights of the rows of instruction `i`, from row `start` on.
pub open spec fn run_total(g: spec_fn(int) -> int, start: int, n: int) -> int {
    sum_to(n, |s: int| g(start + s))
}

/// The weights of the constraint rows, or the lookup rows, of instruction `i`.
pub open spec fn instr_total(w: Compiled, g: spec_fn(int) -> int, lookups: bool, i: int) -> int {
    if lookups {
        run_total(g, w.encoding().lr[i], lookup_len(w.instrs[i]))
    } else {
        run_total(g, w.encoding().cr[i], cons_len(w.instrs[i]))
    }
}

/// The entries of a matrix on the suffix columns, instruction by instruction.
pub proof fn lemma_matrix_total(
    w: Compiled,
    rows: Seq<Seq<Entry>>,
    lookups: bool,
    psi: spec_fn(int, Entry) -> int,
)
    requires
        w.ready(),
        rows.len() == if lookups {
            w.encoding().lu_line
        } else {
            w.encoding().cons_line
        },
    ensures
        ({
            let wl = w.weights.len() as int;
            let g = suffix_row(rows, wl, psi);
            quads_total(
                suffix_quads(w.circuit(), rows),
                quad_weight(psi, wl),
            ) == sum_to(w.instrs.len() as int, |i: int| instr_total(w, g, lookups, i))
        }),
{
    let e = w.encoding();
    let wl = w.weights.len() as int;
    let q = w.instrs.len() as int;
    let top = usize::MAX as int;
    let g = suffix_row(rows, wl, psi);
    let n = rows.len() as int;
    lemma_quads_total(rows, wl, top, n, psi);
    lemma_sum_eq(n, |r: int| row_part(rows[r], r, wl, top, psi), g);
    lemma_row_starts(e);
    let all = |i: int| instr_total(w, g, lookups, i);
    let start = |i: int|
        if lookups {
            counters_at(e, i).lr
        } else {
            counters_at(e, i).cr
        };
    assert(start(q) == n);
    lemma_sum_parts(q, start, g);
    let a = |i: int| sum_to(start(i + 1) - start(i), |r: int| g(start(i) + r));
    assert forall|i: int| 0 <= i < q implies #[trigger] a(i) == all(i) by {
        lemma_instr(w, i);
        let d = start(i + 1) - start(i);
        let st = start(i);
        lemma_sum_eq(d, |r: int| g(start(i) + r), |s: int| g(st + s));
    }
    lemma_sum_eq(q, a, all);
}

/// The weight of what the rows of products of linear combinations write.
pub open spec fn product_weight(e: EncodingView, h: spec_fn(Seq<int>) -> int) -> spec_fn(
    int,
    Entry,
) -> int {
    |r: int, en: Entry| (1 - is_lin_column(e)[r]) * h(seq![r, en.col, en.val, en.pow])
}

/// The weights of a row whose entries all weigh nothing.
pub proof fn lemma_row_nothing(
    row: Seq<Entry>,
    r: int,
    lo: int,
    hi: int,
    psi: spec_fn(int, Entry) -> int,
)
    requires
        forall|en: Entry| #[trigger] psi(r, en) == 0,
    ensures
        row_part(row, r, lo, hi, psi) == 0,
{
    let a = |k: int| super::matrix_laws::kept(row[k], lo, hi, psi(r, row[k]));
    assert forall|k: int| 0 <= k < row.len() implies #[trigger] a(k) == 0 by {
        assert(psi(r, row[k]) == 0);
    }
    lemma_sum_zero(row.len() as int, a);
}

/// What an instruction that is no product of matrices writes.
#[verifier::rlimit(40)]
#[verifier::spinoff_prover]
proof fn lemma_product_cells(w: Compiled, h: spec_fn(Seq<int>) -> int, i: int)
    requires
        w.ready(),
        0 <= i < w.instrs.len(),
    ensures
        ({
            let e = w.encoding();
            let g = suffix_row(w.circuit().c, w.weights.len() as int, product_weight(e, h));
            run_total(g, e.cr[i], cons_len(w.instrs[i])) == e.sel[0][i] * h(
                seq![e.cr[i], e.out[i], 1, 0],
            ) + e.sel[2][i] * h(seq![e.cr[i], e.out[i], e.opn[0][i], 0]) + e.sel[2][i] * h(
                seq![e.cr[i], e.aux[i], 1, 0],
            )
        }),
{
    let e = w.encoding();
    let c = w.circuit();
    let wl = w.weights.len() as int;
    let top = usize::MAX as int;
    let psi = product_weight(e, h);
    let g = suffix_row(c.c, wl, psi);
    let instr = w.instrs[i];
    let cr = e.cr[i];
    let out = e.out[i];
    let aux = e.aux[i];
    lemma_instr(w, i);
    lemma_instr_rows(w, i);
    lemma_sel(e, i);
    lemma_ready(e, i);
    let h0 = h(seq![cr, out, 1, 0]);
    let h1 = h(seq![cr, out, e.opn[0][i], 0]);
    let h2 = h(seq![cr, aux, 1, 0]);
    assert(0 * h0 == 0 && 1 * h0 == h0 && 0 * h1 == 0 && 1 * h1 == h1 && 0 * h2 == 0 && 1 * h2
        == h2);
    let u = |s: int| g(cr + s);
    reveal_with_fuel(sum_to, 3);
    if instr is AddMult || instr is Div {
        lemma_linear_row(w, i, 0);
        let row = c.c[cr + 0];
        assert(row == c_rows(instr, out, aux)[0]);
        assert forall|k: int| 0 <= k < row.len() implies wl <= (#[trigger] row[k]).col < top by {}
        lemma_row_whole(row, cr, wl, top, psi);
        assert(u(0) == row_total(row, cr, psi));
        if instr is AddMult {
            assert(row =~= seq![cell(out)]);
            assert(psi(cr, row[0]) == (1 - 0) * h0);
        } else {
            assert(row.len() == 2);
            assert(operands_of(e, i)[0] == e.opn[0][i]);
            assert(psi(cr, row[0]) == (1 - 0) * h1);
            assert(psi(cr, row[1]) == (1 - 0) * h2);
        }
    } else {
        assert forall|s: int| 0 <= s < cons_len(instr) implies #[trigger] u(s) == 0 by {
            lemma_linear_row(w, i, s);
            assert forall|en: Entry| #[trigger] psi(cr + s, en) == 0 by {
                let y = h(seq![cr + s, en.col, en.val, en.pow]);
                assert((1 - 1) * y == 0);
            }
            lemma_row_nothing(c.c[cr + s], cr + s, wl, top, psi);
        }
        lemma_sum_zero(cons_len(instr), u);
    }
}

/// A sum of three terms for each instruction.
pub proof fn lemma_three(
    q: int,
    all: spec_fn(int) -> int,
    a: spec_fn(int) -> int,
    b: spec_fn(int) -> int,
    d: spec_fn(int) -> int,
)
    requires
        forall|i: int| 0 <= i < q ==> #[trigger] all(i) == a(i) + b(i) + d(i),
    ensures
        sum_to(q, all) == sum_to(q, a) + sum_to(q, b) + sum_to(q, d),
{
    let ab = |i: int| a(i) + b(i);
    let abd = |i: int| ab(i) + d(i);
    lemma_sum_add(q, a, b);
    lemma_sum_add(q, ab, d);
    lemma_sum_eq(q, all, abd);
    lemma_sum_eq(q, ab, |i: int| a(i) + b(i));
}

/// A block over the instructions with a selector.
proof fn lemma_selected_block(
    e: EncodingView,
    c: CircuitView,
    h: spec_fn(Seq<int>) -> int,
    b: BlockView,
    sel: usize,
    y: spec_fn(int) -> Seq<int>,
)
    requires
        registrable(e, c),
        sel < 5,
        b.log_len == crate::sumcheck::log2_ceil(e.opcode.len() as int + 1),
        b.num == super::relation::lin_of(Tab::Sel(sel)),
        forall|i: int|
            0 <= i < e.opcode.len() ==> parts_at(circuit_vectors(e, c), b, i) == #[trigger] y(i),
    ensures
        block_sum(circuit_vectors(e, c), b, h) == sum_to(
            e.opcode.len() as int,
            |i: int| e.sel[sel as int][i] * h(y(i)),
        ),
{
    let f = circuit_vectors(e, c);
    let q = e.opcode.len() as int;
    let k = |i: int| e.sel[sel as int][i] * h(y(i));
    lemma_log2_ceil(q + 1);
    assert forall|i: int| 0 <= i < q implies num_at(f, b, i) * h(parts_at(f, b, i)) == #[trigger] k(
        i,
    ) by {
        lemma_lins(cells_at(f, wide(q + 1), i));
        lemma_instr_cells(e, c, i);
        assert(cells_at(f, wide(q + 1), i)(Tab::Sel(sel)) == e.sel[sel as int][i]);
        assert(parts_at(f, b, i) == y(i));
    }
    assert forall|i: int| q <= i < wide(q + 1) implies #[trigger] num_at(f, b, i) == 0 by {
        lemma_lins(cells_at(f, wide(q + 1), i));
        lemma_instr_cells(e, c, i);
        assert(cells_at(f, wide(q + 1), i)(Tab::Sel(sel)) == 0);
    }
    lemma_block_first(f, b, h, q, k);
}

/// The left-hand side of the rule on what the rows of products write is the sum over the
/// entries of the third matrix.
#[verifier::rlimit(40)]
#[verifier::spinoff_prover]
pub proof fn lemma_product_side(e: EncodingView, c: CircuitView, h: spec_fn(Seq<int>) -> int)
    requires
        registrable(e, c),
    ensures
        ({
            let p = circuit_profile(e, c);
            block_sum(circuit_vectors(e, c), eq_products(p).left[0], h) == quads_total(
                suffix_quads(c, c.c),
                quad_weight(product_weight(e, h), c.weight_len),
            )
        }),
{
    let f = circuit_vectors(e, c);
    let p = circuit_profile(e, c);
    let x = eq_products(p);
    let wl = c.weight_len;
    let l = x.left[0];
    let gr = suffix_group(c);
    let len = wide(gr.row.len() as int);
    let all = suffix_quads(c, c.c);
    let lo = after(c, 1);
    let n = all.len() as int;
    let psi = product_weight(e, h);
    let phi = quad_weight(psi, wl);
    lemma_suffix_group(c, 1);
    lemma_entry_rows(c);
    lemma_segment_len(c, 2);
    lemma_log2_ceil(gr.row.len() as int);
    let g = |k: int| phi(all[k]);
    assert forall|t: int| 0 <= t < len implies #[trigger] num_at(f, l, t) == if lo <= t < lo + n {
        1 - linear_at(e, c, t)
    } else {
        0
    } by {
        let gt = cells_at(f, len, t);
        lemma_lins(gt);
        lemma_entry_cells(e, c, t);
        assert(gt(seg_ind(p, 2)) == if lo <= t < lo + n {
            1int
        } else {
            0
        });
        assert(gt(Tab::MaskC) == if lo <= t < lo + n {
            linear_at(e, c, t)
        } else {
            0
        });
    }
    assert forall|k: int| 0 <= k < n implies num_at(f, l, lo + k) * h(parts_at(f, l, lo + k))
        == #[trigger] g(k) by {
        let t = lo + k;
        let gt = cells_at(f, len, t);
        lemma_lins(gt);
        lemma_entry_cells(e, c, t);
        lemma_segment(c, 2, k);
        assert(gt(Tab::Row) == gr.row[t] && gt(Tab::Col) == gr.col[t] && gt(Tab::Val) == gr.val[t]
            && gt(Tab::Pow) == gr.pow[t]);
        assert(parts_at(f, l, t) =~= seq![
            all[k].row,
            all[k].col + wl,
            all[k].val,
            all[k].pow,
        ]);
        assert(num_at(f, l, t) == 1 - is_lin_column(e)[all[k].row]);
    }
    lemma_block_range(f, l, h, lo, n, g);
    lemma_sum_eq(n, g, |k: int| phi(all[k]));
}

/// The rows of products of linear combinations write the compiled cells.
#[verifier::rlimit(60)]
#[verifier::spinoff_prover]
pub proof fn lemma_eq_products(w: Compiled, h: spec_fn(Seq<int>) -> int)
    requires
        w.ready(),
    ensures
        sides_meet(
            circuit_vectors(w.encoding(), w.circuit()),
            eq_products(circuit_profile(w.encoding(), w.circuit())),
            h,
        ),
{
    let e = w.encoding();
    let c = w.circuit();
    let f = circuit_vectors(e, c);
    let p = circuit_profile(e, c);
    let x = eq_products(p);
    let wl = w.weights.len() as int;
    let q = w.instrs.len() as int;
    let all = suffix_quads(c, c.c);
    let psi = product_weight(e, h);
    let phi = quad_weight(psi, wl);
    lemma_log2_ceil(q + 1);
    lemma_product_side(e, c, h);
    lemma_matrix_total(w, c.c, false, psi);
    let gc = suffix_row(c.c, wl, psi);
    let runs = |i: int| instr_total(w, gc, false, i);
    let k0 = |i: int| e.sel[0][i] * h(seq![e.cr[i], e.out[i], 1, 0]);
    let k1 = |i: int| e.sel[2][i] * h(seq![e.cr[i], e.out[i], e.opn[0][i], 0]);
    let k2 = |i: int| e.sel[2][i] * h(seq![e.cr[i], e.aux[i], 1, 0]);
    assert(quads_total(all, phi) == sum_to(q, runs));
    assert forall|i: int| 0 <= i < q implies #[trigger] runs(i) == k0(i) + k1(i) + k2(i) by {
        lemma_product_cells(w, h, i);
    }
    lemma_three(q, runs, k0, k1, k2);
    let y0 = |i: int| seq![e.cr[i], e.out[i], 1, 0];
    let y1 = |i: int| seq![e.cr[i], e.out[i], e.opn[0][i], 0];
    let y2 = |i: int| seq![e.cr[i], e.aux[i], 1, 0];
    assert forall|i: int| 0 <= i < q implies {
        &&& parts_at(f, x.right[0], i) == #[trigger] y0(i)
        &&& parts_at(f, x.right[1], i) == y1(i)
        &&& parts_at(f, x.right[2], i) == y2(i)
    } by {
        let gi = cells_at(f, wide(q + 1), i);
        lemma_lins(gi);
        lemma_instr_cells(e, c, i);
        assert(gi(Tab::Ctr(CTR_CR)) == e.cr[i] && gi(Tab::Ctr(CTR_OUT)) == e.out[i] && gi(
            Tab::Ctr(CTR_AUX),
        ) == e.aux[i]);
        assert(gi(Tab::Opn(0)) == e.opn[0][i]);
        assert(parts_at(f, x.right[0], i) =~= y0(i));
        assert(parts_at(f, x.right[1], i) =~= y1(i));
        assert(parts_at(f, x.right[2], i) =~= y2(i));
    }
    assert forall|i: int| 0 <= i < q implies parts_at(f, x.right[1], i) == #[trigger] y1(i) by {
        assert(parts_at(f, x.right[0], i) == y0(i));
    }
    assert forall|i: int| 0 <= i < q implies parts_at(f, x.right[2], i) == #[trigger] y2(i) by {
        assert(parts_at(f, x.right[0], i) == y0(i));
    }
    lemma_selected_block(e, c, h, x.right[0], 0, y0);
    lemma_selected_block(e, c, h, x.right[1], 2, y1);
    lemma_selected_block(e, c, h, x.right[2], 2, y2);
    lemma_sum_eq(q, k0, |i: int| e.sel[0][i] * h(y0(i)));
    lemma_sum_eq(q, k1, |i: int| e.sel[2][i] * h(y1(i)));
    lemma_sum_eq(q, k2, |i: int| e.sel[2][i] * h(y2(i)));
    reveal_with_fuel(blocks_sum, 4);
}

/// The weight of what the lookup rows write.
pub open spec fn output_weight(flag: int, h: spec_fn(Seq<int>) -> int) -> spec_fn(
    int,
    Entry,
) -> int {
    |r: int, en: Entry| h(seq![r + flag, en.col, en.val, en.pow])
}

/// What the lookup rows of an instruction write.
#[verifier::rlimit(40)]
#[verifier::spinoff_prover]
proof fn lemma_output_cells(w: Compiled, flag: int, h: spec_fn(Seq<int>) -> int, i: int)
    requires
        w.ready(),
        0 <= i < w.instrs.len(),
    ensures
        ({
            let e = w.encoding();
            let g = suffix_row(w.circuit().e, w.weights.len() as int, output_weight(flag, h));
            run_total(g, e.lr[i], lookup_len(w.instrs[i])) == e.sel[1][i] * h(
                seq![e.lr[i] + flag, e.out[i], 1, 0],
            ) + e.sel[2][i] * h(seq![e.lr[i] + flag, e.aux[i], 1, 0]) + e.sel[2][i] * h(
                seq![e.lr[i] + (flag + 1), e.out[i], 1, 0],
            )
        }),
{
    let e = w.encoding();
    let c = w.circuit();
    let wl = w.weights.len() as int;
    let top = usize::MAX as int;
    let psi = output_weight(flag, h);
    let g = suffix_row(c.e, wl, psi);
    let instr = w.instrs[i];
    let lr = e.lr[i];
    let out = e.out[i];
    let aux = e.aux[i];
    lemma_instr(w, i);
    lemma_instr_rows(w, i);
    lemma_sel(e, i);
    lemma_ready(e, i);
    let h0 = h(seq![lr + flag, out, 1, 0]);
    let h1 = h(seq![lr + flag, aux, 1, 0]);
    let h2 = h(seq![lr + (flag + 1), out, 1, 0]);
    assert(0 * h0 == 0 && 1 * h0 == h0 && 0 * h1 == 0 && 1 * h1 == h1 && 0 * h2 == 0 && 1 * h2
        == h2);
    let u = |s: int| g(lr + s);
    reveal_with_fuel(sum_to, 3);
    if instr is Lookup {
        let row = c.e[lr + 0];
        assert(row == e_rows(instr, out, aux)[0]);
        assert(row =~= seq![cell(out)]);
        lemma_row_whole(row, lr, wl, top, psi);
        assert(psi(lr, row[0]) == h0);
        assert(u(0) == h0);
    } else if instr is Div {
        let row = c.e[lr + 0];
        assert(row == e_rows(instr, out, aux)[0]);
        assert(row =~= seq![cell(aux)]);
        lemma_row_whole(row, lr, wl, top, psi);
        assert(psi(lr, row[0]) == h1);
        assert(u(0) == h1);
        let next = c.e[lr + 1];
        assert(next == e_rows(instr, out, aux)[1]);
        assert(next =~= seq![cell(out)]);
        lemma_row_whole(next, lr + 1, wl, top, psi);
        assert(seq![lr + 1 + flag, out, 1, 0] =~= seq![lr + (flag + 1), out, 1, 0]);
        assert(psi(lr + 1, next[0]) == h2);
        assert(u(1) == h2);
    }
}

/// The left-hand side of the rule on what the lookup rows write is the sum over the entries
/// of the fifth matrix.
#[verifier::rlimit(40)]
#[verifier::spinoff_prover]
pub proof fn lemma_output_side(e: EncodingView, c: CircuitView, h: spec_fn(Seq<int>) -> int)
    requires
        registrable(e, c),
    ensures
        ({
            let p = circuit_profile(e, c);
            block_sum(circuit_vectors(e, c), eq_outputs(p).left[0], h) == quads_total(
                suffix_quads(c, c.e),
                quad_weight(output_weight(p.row_flag, h), c.weight_len),
            )
        }),
{
    let f = circuit_vectors(e, c);
    let p = circuit_profile(e, c);
    let x = eq_outputs(p);
    let wl = c.weight_len;
    let l = x.left[0];
    let gr = suffix_group(c);
    let len = wide(gr.row.len() as int);
    let all = suffix_quads(c, c.e);
    let lo = after(c, 3);
    let n = all.len() as int;
    let flag = p.row_flag;
    let psi = output_weight(flag, h);
    let phi = quad_weight(psi, wl);
    lemma_suffix_group(c, 1);
    lemma_entry_rows(c);
    lemma_segment_len(c, 4);
    lemma_log2_ceil(gr.row.len() as int);
    let g = |k: int| phi(all[k]);
    assert forall|t: int| 0 <= t < len implies #[trigger] num_at(f, l, t) == if lo <= t < lo + n {
        1int
    } else {
        0
    } by {
        let gt = cells_at(f, len, t);
        lemma_lins(gt);
        assert(gt(seg_ind(p, 4)) == if lo <= t < lo + n {
            1int
        } else {
            0
        });
    }
    assert forall|k: int| 0 <= k < n implies num_at(f, l, lo + k) * h(parts_at(f, l, lo + k))
        == #[trigger] g(k) by {
        let t = lo + k;
        let gt = cells_at(f, len, t);
        lemma_lins(gt);
        lemma_entry_cells(e, c, t);
        lemma_segment(c, 4, k);
        assert(gt(Tab::Row) == gr.row[t] && gt(Tab::Col) == gr.col[t] && gt(Tab::Val) == gr.val[t]
            && gt(Tab::Pow) == gr.pow[t]);
        assert(parts_at(f, l, t) =~= seq![
            all[k].row + flag,
            all[k].col + wl,
            all[k].val,
            all[k].pow,
        ]);
        assert(num_at(f, l, t) == 1);
        assert(1 * g(k) == g(k));
    }
    lemma_block_range(f, l, h, lo, n, g);
    lemma_sum_eq(n, g, |k: int| phi(all[k]));
}

/// The lookup rows write the compiled cells.
#[verifier::rlimit(60)]
#[verifier::spinoff_prover]
pub proof fn lemma_eq_outputs(w: Compiled, h: spec_fn(Seq<int>) -> int)
    requires
        w.ready(),
    ensures
        sides_meet(
            circuit_vectors(w.encoding(), w.circuit()),
            eq_outputs(circuit_profile(w.encoding(), w.circuit())),
            h,
        ),
{
    let e = w.encoding();
    let c = w.circuit();
    let f = circuit_vectors(e, c);
    let p = circuit_profile(e, c);
    let x = eq_outputs(p);
    let wl = w.weights.len() as int;
    let q = w.instrs.len() as int;
    let all = suffix_quads(c, c.e);
    let flag = p.row_flag;
    let psi = output_weight(flag, h);
    let phi = quad_weight(psi, wl);
    lemma_log2_ceil(q + 1);
    lemma_output_side(e, c, h);
    lemma_matrix_total(w, c.e, true, psi);
    let ge = suffix_row(c.e, wl, psi);
    let runs = |i: int| instr_total(w, ge, true, i);
    let y0 = |i: int| seq![e.lr[i] + flag, e.out[i], 1, 0];
    let y1 = |i: int| seq![e.lr[i] + flag, e.aux[i], 1, 0];
    let y2 = |i: int| seq![e.lr[i] + (flag + 1), e.out[i], 1, 0];
    let k0 = |i: int| e.sel[1][i] * h(y0(i));
    let k1 = |i: int| e.sel[2][i] * h(y1(i));
    let k2 = |i: int| e.sel[2][i] * h(y2(i));
    assert(quads_total(all, phi) == sum_to(q, runs));
    assert forall|i: int| 0 <= i < q implies #[trigger] runs(i) == k0(i) + k1(i) + k2(i) by {
        lemma_output_cells(w, flag, h, i);
    }
    lemma_three(q, runs, k0, k1, k2);
    assert forall|i: int| 0 <= i < q implies {
        &&& parts_at(f, x.right[0], i) == #[trigger] y0(i)
        &&& parts_at(f, x.right[1], i) == y1(i)
        &&& parts_at(f, x.right[2], i) == y2(i)
    } by {
        let gi = cells_at(f, wide(q + 1), i);
        lemma_lins(gi);
        lemma_instr_cells(e, c, i);
        assert(gi(Tab::Ctr(CTR_LR)) == e.lr[i] && gi(Tab::Ctr(CTR_OUT)) == e.out[i] && gi(
            Tab::Ctr(CTR_AUX),
        ) == e.aux[i]);
        assert(parts_at(f, x.right[0], i) =~= y0(i));
        assert(parts_at(f, x.right[1], i) =~= y1(i));
        assert(parts_at(f, x.right[2], i) =~= y2(i));
    }
    assert forall|i: int| 0 <= i < q implies parts_at(f, x.right[1], i) == #[trigger] y1(i) by {
        assert(parts_at(f, x.right[0], i) == y0(i));
    }
    assert forall|i: int| 0 <= i < q implies parts_at(f, x.right[2], i) == #[trigger] y2(i) by {
        assert(parts_at(f, x.right[0], i) == y0(i));
    }
    lemma_selected_block(e, c, h, x.right[0], 1, y0);
    lemma_selected_block(e, c, h, x.right[1], 2, y1);
    lemma_selected_block(e, c, h, x.right[2], 2, y2);
    lemma_sum_eq(q, k0, |i: int| e.sel[1][i] * h(y0(i)));
    lemma_sum_eq(q, k1, |i: int| e.sel[2][i] * h(y1(i)));
    lemma_sum_eq(q, k2, |i: int| e.sel[2][i] * h(y2(i)));
    reveal_with_fuel(blocks_sum, 4);
}

/// The types of the lookup rows of an instruction.
proof fn lemma_type_cells(w: Compiled, h: spec_fn(Seq<int>) -> int, i: int)
    requires
        w.ready(),
        0 <= i < w.instrs.len(),
    ensures
        ({
            let e = w.encoding();
            let lr = e.lr[i];
            let tp = w.circuit().tp;
            sum_to(lookup_len(w.instrs[i]), |r: int| h(seq![lr + r, tp[lr + r]])) == e.sel[1][i]
                * h(seq![lr, e.opn[0][i]]) + e.sel[2][i] * h(seq![lr, -e.opn[0][i]]) + e.sel[2][i]
                * h(seq![lr + 1, LookupType::Bound(QUOTIENT_BOUND).tag_of()])
        }),
{
    let e = w.encoding();
    let lr = e.lr[i];
    let tp = w.circuit().tp;
    let instr = w.instrs[i];
    lemma_instr(w, i);
    lemma_instr_rows(w, i);
    lemma_sel(e, i);
    let u = |r: int| h(seq![lr + r, tp[lr + r]]);
    reveal_with_fuel(sum_to, 3);
    let h0 = h(seq![lr, e.opn[0][i]]);
    let h1 = h(seq![lr, -e.opn[0][i]]);
    let h2 = h(seq![lr + 1, LookupType::Bound(QUOTIENT_BOUND).tag_of()]);
    assert(0 * h0 == 0 && 1 * h0 == h0 && 0 * h1 == 0 && 1 * h1 == h1 && 0 * h2 == 0 && 1 * h2
        == h2);
    assert(operands_of(e, i)[0] == e.opn[0][i]);
    if instr is Lookup {
        assert(tp[lr + 0] == lookup_tags(instr)[0]);
        assert(u(0) == h0);
    } else if instr is Div {
        assert(tp[lr + 0] == lookup_tags(instr)[0]);
        assert(tp[lr + 1] == lookup_tags(instr)[1]);
        assert(u(0) == h1);
        assert(u(1) == h2);
    }
}

/// The left-hand side of the rule on the types is the sum over the lookup rows.
#[verifier::rlimit(40)]
pub proof fn lemma_type_side(e: EncodingView, c: CircuitView, h: spec_fn(Seq<int>) -> int)
    requires
        registrable(e, c),
    ensures
        block_sum(circuit_vectors(e, c), eq_types(circuit_profile(e, c)).left[0], h) == sum_to(
            e.lu_line,
            |j: int| h(seq![j, c.tp[j]]),
        ),
{
    let f = circuit_vectors(e, c);
    let p = circuit_profile(e, c);
    let x = eq_types(p);
    let l = x.left[0];
    let n = e.lu_line;
    let len = wide(n);
    lemma_log2_ceil(n);
    let g = |j: int| h(seq![j, c.tp[j]]);
    assert forall|j: int| 0 <= j < len implies #[trigger] num_at(f, l, j) == if j < n {
        1int
    } else {
        0
    } by {
        lemma_lins(cells_at(f, len, j));
        assert(cells_at(f, len, j)(ind(0, n)) == if j < n {
            1int
        } else {
            0
        });
    }
    assert forall|j: int| 0 <= j < n implies num_at(f, l, j) * h(parts_at(f, l, j)) == #[trigger]
        g(j) by {
        lemma_lins_of(f, l, j, seq![Tab::Identity, Tab::Tp]);
        lemma_lu_cells(e, c, j);
        assert(parts_at(f, l, j) =~= seq![j, c.tp[j]]);
        assert(num_at(f, l, j) == 1);
        assert(1 * g(j) == g(j));
    }
    lemma_block_first(f, l, h, n, g);
    lemma_sum_eq(n, g, |j: int| h(seq![j, c.tp[j]]));
}

/// The lookup rows have the compiled types.
#[verifier::rlimit(60)]
#[verifier::spinoff_prover]
pub proof fn lemma_eq_types(w: Compiled, h: spec_fn(Seq<int>) -> int)
    requires
        w.ready(),
    ensures
        sides_meet(
            circuit_vectors(w.encoding(), w.circuit()),
            eq_types(circuit_profile(w.encoding(), w.circuit())),
            h,
        ),
{
    let e = w.encoding();
    let c = w.circuit();
    let f = circuit_vectors(e, c);
    let p = circuit_profile(e, c);
    let x = eq_types(p);
    let q = w.instrs.len() as int;
    let g = |j: int| h(seq![j, c.tp[j]]);
    let n = e.lu_line;
    lemma_log2_ceil(q + 1);
    lemma_type_side(e, c, h);
    lemma_sum_eq(n, g, |j: int| h(seq![j, c.tp[j]]));
    let start = |i: int| counters_at(e, i).lr;
    lemma_row_starts(e);
    lemma_sum_parts(q, start, g);
    let bound = LookupType::Bound(QUOTIENT_BOUND).tag_of();
    let a = |i: int| sum_to(start(i + 1) - start(i), |r: int| g(start(i) + r));
    let y0 = |i: int| seq![e.lr[i], e.opn[0][i]];
    let y1 = |i: int| seq![e.lr[i], -e.opn[0][i]];
    let y2 = |i: int| seq![e.lr[i] + 1, bound];
    let k0 = |i: int| e.sel[1][i] * h(y0(i));
    let k1 = |i: int| e.sel[2][i] * h(y1(i));
    let k2 = |i: int| e.sel[2][i] * h(y2(i));
    assert forall|i: int| 0 <= i < q implies #[trigger] a(i) == k0(i) + k1(i) + k2(i) by {
        lemma_instr(w, i);
        lemma_type_cells(w, h, i);
        let lr = e.lr[i];
        lemma_sum_eq(
            lookup_len(w.instrs[i]),
            |r: int| g(start(i) + r),
            |r: int| h(seq![lr + r, c.tp[lr + r]]),
        );
    }
    lemma_three(q, a, k0, k1, k2);
    assert forall|i: int| 0 <= i < q implies {
        &&& parts_at(f, x.right[0], i) == #[trigger] y0(i)
        &&& parts_at(f, x.right[1], i) == y1(i)
        &&& parts_at(f, x.right[2], i) == y2(i)
    } by {
        let gi = cells_at(f, wide(q + 1), i);
        lemma_lins(gi);
        lemma_instr_cells(e, c, i);
        assert(gi(Tab::Ctr(CTR_LR)) == e.lr[i]);
        assert(gi(Tab::Opn(0)) == e.opn[0][i]);
        assert(parts_at(f, x.right[0], i) =~= y0(i));
        assert(parts_at(f, x.right[1], i) =~= y1(i));
        assert(parts_at(f, x.right[2], i) =~= y2(i));
    }
    assert forall|i: int| 0 <= i < q implies parts_at(f, x.right[1], i) == #[trigger] y1(i) by {
        assert(parts_at(f, x.right[0], i) == y0(i));
    }
    assert forall|i: int| 0 <= i < q implies parts_at(f, x.right[2], i) == #[trigger] y2(i) by {
        assert(parts_at(f, x.right[0], i) == y0(i));
    }
    lemma_selected_block(e, c, h, x.right[0], 1, y0);
    lemma_selected_block(e, c, h, x.right[1], 2, y1);
    lemma_selected_block(e, c, h, x.right[2], 2, y2);
    lemma_sum_eq(q, k0, |i: int| e.sel[1][i] * h(y0(i)));
    lemma_sum_eq(q, k1, |i: int| e.sel[2][i] * h(y1(i)));
    lemma_sum_eq(q, k2, |i: int| e.sel[2][i] * h(y2(i)));
    reveal_with_fuel(blocks_sum, 4);
}

} // verus!
