//! The values of the vectors of a registration, place by place.
use vstd::prelude::*;
use crate::circuit::CircuitView;
use crate::sparse::{lemma_prefix_group, lemma_suffix_group, prefix_group, suffix_group};
use crate::sumcheck::lemma_log2_ceil;
use super::certificate::{circuit_vectors, column_of, registrable};
use super::columns::{lemma_rows_len, lemma_x_rows_len};
use super::encode::{EncodingView, NUM_OPCODES, NUM_OPERANDS, counters_at, delta_at};
use super::family::{MAX_DIGITS, NUM_FAMILIES, families_of};
use super::relation::Tab;
use super::witness::{
    CTR_AUX, CTR_CR, CTR_LR, CTR_OUT, after, buildable, circuit_profile, cons_rows, is_lin_column,
    limit_at, linear_at, lu_rows, masked, share, share_sum, slack_at, wide, x_rows,
};

verus! {

/// The lesser of a place and the number of instructions.
pub open spec fn clamped(e: EncodingView, x: int) -> int {
    if x < e.opcode.len() {
        x
    } else {
        e.opcode.len() as int
    }
}

/// The vectors over the instructions.
pub proof fn lemma_instr_cells(e: EncodingView, c: CircuitView, x: int)
    requires
        buildable(e, c, circuit_profile(e, c)),
        0 <= x < wide(e.opcode.len() as int + 1),
    ensures
        ({
            let f = circuit_vectors(e, c);
            let q = e.opcode.len() as int;
            let len = wide(q + 1);
            let at = counters_at(e, clamped(e, x));
            &&& x < q ==> forall|j: usize|
                j < NUM_OPCODES ==> #[trigger] column_of(f, Tab::Sel(j), len)[x]
                    == e.sel[j as int][x]
            &&& x >= q ==> forall|j: usize|
                j < NUM_OPCODES ==> #[trigger] column_of(f, Tab::Sel(j), len)[x] == 0
            &&& x < q ==> forall|s: usize|
                s < NUM_OPERANDS ==> #[trigger] column_of(f, Tab::Opn(s), len)[x]
                    == e.opn[s as int][x]
            &&& x >= q ==> forall|s: usize|
                s < NUM_OPERANDS ==> #[trigger] column_of(f, Tab::Opn(s), len)[x] == 0
            &&& column_of(f, Tab::Ctr(CTR_OUT), len)[x] == at.out
            &&& column_of(f, Tab::Ctr(CTR_AUX), len)[x] == at.aux
            &&& column_of(f, Tab::Ctr(CTR_CR), len)[x] == at.cr
            &&& column_of(f, Tab::Ctr(CTR_LR), len)[x] == at.lr
            &&& x < q ==> {
                &&& at.out == e.out[x]
                &&& at.aux == e.aux[x]
                &&& at.cr == e.cr[x]
                &&& at.lr == e.lr[x]
                &&& column_of(f, Tab::DCtr(CTR_OUT), len)[x] == delta_at(e, x).out
                &&& column_of(f, Tab::DCtr(CTR_AUX), len)[x] == delta_at(e, x).aux
                &&& column_of(f, Tab::DCtr(CTR_CR), len)[x] == delta_at(e, x).cr
                &&& column_of(f, Tab::DCtr(CTR_LR), len)[x] == delta_at(e, x).lr
            }
            &&& x >= q ==> {
                &&& column_of(f, Tab::DCtr(CTR_OUT), len)[x] == 0
                &&& column_of(f, Tab::DCtr(CTR_AUX), len)[x] == 0
                &&& column_of(f, Tab::DCtr(CTR_CR), len)[x] == 0
                &&& column_of(f, Tab::DCtr(CTR_LR), len)[x] == 0
            }
            &&& forall|k: usize|
                k < NUM_FAMILIES ==> #[trigger] column_of(f, Tab::Base(k), len)[x] == share_sum(
                    e,
                    families_of()[k as int],
                    clamped(e, x),
                )
            &&& forall|k: usize|
                k < NUM_FAMILIES ==> #[trigger] column_of(f, Tab::Mult(k), len)[x] == if x < q {
                    share(e, families_of()[k as int], x)
                } else {
                    0
                }
        }),
{
    let q = e.opcode.len() as int;
    lemma_log2_ceil(q + 1);
    if x < q {
        assert(e.out[x] == counters_at(e, x).out);
    }
    assert forall|j: usize| j < NUM_OPCODES implies (#[trigger] e.sel[j as int]).len() == q by {}
    assert forall|s: usize| s < NUM_OPERANDS implies (#[trigger] e.opn[s as int]).len() == q by {}
    let f = circuit_vectors(e, c);
    let len = wide(q + 1);
    assert forall|j: usize| j < NUM_OPCODES implies #[trigger] column_of(f, Tab::Sel(j), len)[x]
        == if x < q {
        e.sel[j as int][x]
    } else {
        0
    } by {
        assert(e.sel[j as int].len() == q);
    }
    assert forall|s: usize| s < NUM_OPERANDS implies #[trigger] column_of(
        f,
        Tab::Opn(s),
        len,
    )[x] == if x < q {
        e.opn[s as int][x]
    } else {
        0
    } by {
        assert(e.opn[s as int].len() == q);
    }
}

/// The vectors over the constraint rows.
pub proof fn lemma_cons_cells(e: EncodingView, c: CircuitView, x: int)
    requires
        registrable(e, c),
        0 <= x < wide(e.cons_line),
    ensures
        ({
            let f = circuit_vectors(e, c);
            let len = wide(e.cons_line);
            let rows = cons_rows(e, e.opcode.len() as int);
            &&& rows.len() == e.cons_line
            &&& x < e.cons_line ==> {
                &&& column_of(f, Tab::RowOut, len)[x] == rows[x].out
                &&& column_of(f, Tab::RowPtr, len)[x] == rows[x].ptr
                &&& column_of(f, Tab::RowCr, len)[x] == rows[x].cr
                &&& column_of(f, Tab::RowDcr, len)[x] == rows[x].dcr
                &&& column_of(f, Tab::IsLin, len)[x] == rows[x].lin
                &&& column_of(f, Tab::RowSlackLo, len)[x] == rows[x].lo
                &&& column_of(f, Tab::RowSlackHi, len)[x] == rows[x].hi
            }
            &&& x >= e.cons_line ==> {
                &&& column_of(f, Tab::RowSlackLo, len)[x] == 0
                &&& column_of(f, Tab::RowSlackHi, len)[x] == 0
            }
        }),
{
    let q = e.opcode.len() as int;
    lemma_log2_ceil(e.cons_line);
    lemma_rows_len(e, q);
}

/// The vectors over the lookup rows.
pub proof fn lemma_lu_cells(e: EncodingView, c: CircuitView, x: int)
    requires
        registrable(e, c),
        0 <= x < e.lu_line,
    ensures
        ({
            let f = circuit_vectors(e, c);
            let len = wide(e.lu_line);
            let rows = lu_rows(e, e.opcode.len() as int);
            &&& rows.len() == e.lu_line
            &&& e.lu_line <= len
            &&& column_of(f, Tab::LuOut, len)[x] == rows[x].0
            &&& column_of(f, Tab::IsLookup, len)[x] == rows[x].1
            &&& column_of(f, Tab::Tp, len)[x] == c.tp[x]
        }),
{
    let q = e.opcode.len() as int;
    lemma_log2_ceil(e.lu_line);
    lemma_rows_len(e, q);
}

/// The vectors over the entries on the suffix columns.
pub proof fn lemma_entry_cells(e: EncodingView, c: CircuitView, t: int)
    requires
        registrable(e, c),
        0 <= t < wide(suffix_group(c).row.len() as int),
    ensures
        ({
            let f = circuit_vectors(e, c);
            let g = suffix_group(c);
            let n = g.row.len() as int;
            let len = wide(n);
            &&& n <= len
            &&& t < n ==> {
                &&& column_of(f, Tab::MaxRead, len)[t] == limit_at(e, c, t)
                &&& column_of(f, Tab::Diff, len)[t] == slack_at(e, c, t)
                &&& column_of(f, Tab::EntLin, len)[t] == linear_at(e, c, t)
                &&& column_of(f, Tab::MaskA, len)[t] == masked(e, c, 0, after(c, 0), t)
                &&& column_of(f, Tab::MaskB, len)[t] == masked(e, c, after(c, 0), after(c, 1), t)
                &&& column_of(f, Tab::MaskC, len)[t] == masked(e, c, after(c, 1), after(c, 2), t)
                &&& column_of(f, Tab::Row, len)[t] == g.row[t]
                &&& column_of(f, Tab::Col, len)[t] == g.col[t]
                &&& column_of(f, Tab::Val, len)[t] == g.val[t]
                &&& column_of(f, Tab::Pow, len)[t] == g.pow[t]
            }
            &&& t >= n ==> {
                &&& column_of(f, Tab::Diff, len)[t] == 0
                &&& column_of(f, Tab::MaskA, len)[t] == 0
                &&& column_of(f, Tab::MaskB, len)[t] == 0
                &&& column_of(f, Tab::MaskC, len)[t] == 0
                &&& column_of(f, Tab::EntLin, len)[t] == 0
            }
        }),
{
    lemma_log2_ceil(suffix_group(c).row.len() as int);
    lemma_suffix_group(c, 1);
}

/// The vectors over the entries on the prefix columns.
pub proof fn lemma_prefix_cells(e: EncodingView, c: CircuitView, t: int)
    requires
        registrable(e, c),
        0 <= t < wide(prefix_group(c).row.len() as int),
    ensures
        ({
            let f = circuit_vectors(e, c);
            let g = prefix_group(c);
            let n = g.row.len() as int;
            let len = wide(n);
            &&& n <= len
            &&& t < n ==> {
                &&& column_of(f, Tab::DiffPre, len)[t] == e.weight_len - 1 - g.col[t]
                &&& column_of(f, Tab::BEntLin, len)[t] == is_lin_column(e)[g.row[t]]
                &&& column_of(f, Tab::MaskPre, len)[t] == is_lin_column(e)[g.row[t]]
                &&& column_of(f, Tab::BRow, len)[t] == g.row[t]
                &&& column_of(f, Tab::BCol, len)[t] == g.col[t]
                &&& column_of(f, Tab::BVal, len)[t] == g.val[t]
                &&& column_of(f, Tab::BPow, len)[t] == g.pow[t]
            }
            &&& t >= n ==> {
                &&& column_of(f, Tab::DiffPre, len)[t] == 0
                &&& column_of(f, Tab::MaskPre, len)[t] == 0
                &&& column_of(f, Tab::BPow, len)[t] == 0
            }
        }),
{
    lemma_log2_ceil(prefix_group(c).row.len() as int);
    lemma_prefix_group(c, 1);
}

/// The vectors over the entries of the families.
pub proof fn lemma_family_cells(e: EncodingView, c: CircuitView, x: int)
    requires
        registrable(e, c),
        0 <= x < wide(circuit_profile(e, c).x_len),
    ensures
        ({
            let f = circuit_vectors(e, c);
            let n = circuit_profile(e, c).x_len;
            let len = wide(n);
            let rows = x_rows(e, NUM_FAMILIES as int);
            &&& n <= len
            &&& rows.len() == n
            &&& x < n ==> {
                &&& column_of(f, Tab::XPtr, len)[x] == rows[x].ptr
                &&& column_of(f, Tab::XBase, len)[x] == rows[x].base
                &&& column_of(f, Tab::XCr, len)[x] == rows[x].cr
                &&& column_of(f, Tab::XOut, len)[x] == rows[x].out
                &&& column_of(f, Tab::XAux, len)[x] == rows[x].aux
                &&& column_of(f, Tab::XPow, len)[x] == rows[x].pow
                &&& forall|s: usize|
                    s < NUM_OPERANDS ==> #[trigger] column_of(f, Tab::XOp(s), len)[x]
                        == rows[x].ops[s as int]
                &&& forall|j: usize|
                    j < MAX_DIGITS ==> #[trigger] column_of(f, Tab::XDigit(j), len)[x]
                        == rows[x].digits[j as int]
                &&& forall|j: usize|
                    j < MAX_DIGITS ==> #[trigger] column_of(f, Tab::XDigitSlack(j), len)[x]
                        == rows[x].slacks[j as int]
            }
        }),
{
    lemma_log2_ceil(circuit_profile(e, c).x_len);
    lemma_x_rows_len(e, NUM_FAMILIES as int);
}

} // verus!
