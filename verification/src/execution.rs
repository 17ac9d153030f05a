//! Executions of compiled programs satisfy their circuits.
use vstd::prelude::*;
use vstd::arithmetic::power::*;
use crate::acceptance::{holds_weights, reads_no_weight};
use crate::circuit::{
    Entry, LookupType, QUOTIENT_BOUND, matrix_in_range, plain_row, row_in_range, row_value,
    satisfied, table_has,
};
use crate::compiler::{
    Rows, a_rows, advice_len, aux_at, b_rows, c_rows, cell, cells, circuit_of, d_rows, e_rows,
    first, graded, instr_error, kernel_row, left_row, lemma_no_error, lookup_tags, plane_row,
    program_error, row_error, rows_of, validity_error,
};
use crate::field::{cong, lemma_cong_ops};
use crate::instruction::Instruction;
use crate::products::{law_convolution, law_mat_product};
use crate::program::{
    LookupTable, advice, conv_cell, instr_advice, instr_outputs, ints, kernel_pow, kernel_value,
    left_value, lin_in_range, lin_value, mat_entry, out_at, plane_value, right_value, run,
};
use crate::sums::{lemma_sum_eq, sum_to};

verus! {

/// The value of a linear combination of cells.
proof fn lemma_plain_row(r: Seq<(usize, i64)>, z: Seq<int>, gamma: int)
    ensures
        row_value(plain_row(r), z, gamma) == lin_value(r, z, r.len() as int),
{
    let row = plain_row(r);
    let a = |k: int| z[row[k].col] * row[k].val * pow(gamma, row[k].pow as nat);
    let b = |k: int| z[r[k].0 as int] * r[k].1;
    assert forall|k: int| 0 <= k < r.len() implies #[trigger] a(k) == b(k) by {
        lemma_pow0(gamma);
        let x = z[r[k].0 as int] * r[k].1;
        assert(x * 1 == x);
    }
    lemma_sum_eq(r.len() as int, a, b);
}

/// The value of one cell.
pub proof fn lemma_cell(c: int, z: Seq<int>, gamma: int)
    ensures
        row_value(seq![cell(c)], z, gamma) == z[c],
{
    let row = seq![cell(c)];
    let a = |k: int| z[row[k].col] * row[k].val * pow(gamma, row[k].pow as nat);
    lemma_pow0(gamma);
    reveal_with_fuel(sum_to, 2);
    assert(row_value(row, z, gamma) == a(0));
    assert(z[c] * 1 * 1 == z[c]) by (nonlinear_arith);
}

/// The value of a run of cells.
proof fn lemma_cells(start: int, len: int, z: Seq<int>, gamma: int)
    requires
        0 <= len,
    ensures
        row_value(cells(start, len), z, gamma) == sum_to(len, |i: int| z[start + i]),
{
    let row = cells(start, len);
    let a = |k: int| z[row[k].col] * row[k].val * pow(gamma, row[k].pow as nat);
    let b = |i: int| z[start + i];
    assert forall|k: int| 0 <= k < len implies #[trigger] a(k) == b(k) by {
        lemma_pow0(gamma);
        let x = z[start + k];
        assert(x * 1 * 1 == x) by (nonlinear_arith);
    }
    lemma_sum_eq(len, a, b);
}

/// The value of a run of cells, each with its index as power.
pub proof fn lemma_graded(start: int, len: int, z: Seq<int>, gamma: int)
    requires
        0 <= len,
    ensures
        row_value(graded(start, len), z, gamma) == sum_to(
            len,
            |i: int| z[start + i] * pow(gamma, i as nat),
        ),
{
    let row = graded(start, len);
    let a = |k: int| z[row[k].col] * row[k].val * pow(gamma, row[k].pow as nat);
    let b = |i: int| z[start + i] * pow(gamma, i as nat);
    assert forall|k: int| 0 <= k < len implies #[trigger] a(k) == b(k) by {
        let x = z[start + k];
        assert(x * 1 == x);
    }
    lemma_sum_eq(len, a, b);
}

/// Two traces have the same cells up to a place.
pub open spec fn agree(y: Seq<int>, z: Seq<int>, n: int) -> bool {
    forall|i: int| 0 <= i < n ==> #[trigger] y[i] == z[i]
}

/// A linear combination of cells does not depend on the others.
proof fn lemma_lin_prefix(r: Seq<(usize, i64)>, y: Seq<int>, z: Seq<int>, n: int)
    requires
        lin_in_range(r, n),
        agree(y, z, n),
    ensures
        lin_value(r, y, r.len() as int) == lin_value(r, z, r.len() as int),
{
    let a = |k: int| y[r[k].0 as int] * r[k].1;
    let b = |k: int| z[r[k].0 as int] * r[k].1;
    assert forall|k: int| 0 <= k < r.len() implies #[trigger] a(k) == b(k) by {
        assert(r[k].0 < n);
        assert(y[r[k].0 as int] == z[r[k].0 as int]);
    }
    lemma_sum_eq(r.len() as int, a, b);
}

/// The place of an entry of a block is within it.
proof fn lemma_place(count: int, len: int, c: int, t: int)
    requires
        0 <= c < count,
        0 <= t < len,
    ensures
        0 <= c * len + t < count * len,
        0 <= c * len,
{
    assert(0 <= c * len && c * len + t < count * len) by (nonlinear_arith)
        requires
            0 <= c < count,
            0 <= t < len,
    ;
}

/// The entries for row `i` of the first matrix of a product have its randomized value.
proof fn lemma_left_row(
    y: Seq<int>,
    z: Seq<int>,
    bound: int,
    m: int,
    n: int,
    k: int,
    s1: int,
    i: int,
    gamma: int,
)
    requires
        agree(y, z, bound),
        0 <= s1,
        0 <= i < n,
        0 <= m,
        0 <= k,
        s1 + n * m <= bound,
    ensures
        row_value(left_row(m, k, s1, i), z, gamma) == left_value(y, m, k, s1, i, gamma),
        forall|j: int| 0 <= j < m ==> s1 <= (#[trigger] left_row(m, k, s1, i)[j]).col < bound,
{
    let row = left_row(m, k, s1, i);
    let a = |q: int| z[row[q].col] * row[q].val * pow(gamma, row[q].pow as nat);
    let b = |j: int| y[s1 + i * m + j] * pow(gamma, (j * k) as nat);
    assert forall|j: int| 0 <= j < m implies #[trigger] a(j) == b(j) && s1 <= row[j].col
        < bound by {
        lemma_place(n, m, i, j);
        let x = y[s1 + i * m + j];
        assert(x == z[s1 + i * m + j]);
        assert(x * 1 == x);
    }
    assert forall|j: int| 0 <= j < m implies s1 <= (#[trigger] row[j]).col < bound by {
        assert(a(j) == b(j));
    }
    lemma_sum_eq(m, a, b);
}

/// The entries for a run of the second matrix of a product have its randomized value.
proof fn lemma_right_row(
    y: Seq<int>,
    z: Seq<int>,
    bound: int,
    n: int,
    k: int,
    s2: int,
    i: int,
    gamma: int,
)
    requires
        agree(y, z, bound),
        0 <= s2,
        0 <= i < n,
        0 <= k,
        s2 + n * k <= bound,
    ensures
        row_value(graded(s2 + i * k, k), z, gamma) == right_value(y, k, s2, i, gamma),
        forall|j: int| 0 <= j < k ==> s2 <= (#[trigger] graded(s2 + i * k, k)[j]).col < bound,
{
    let row = graded(s2 + i * k, k);
    lemma_graded(s2 + i * k, k, z, gamma);
    let a = |q: int| z[s2 + i * k + q] * pow(gamma, q as nat);
    let b = |j: int| y[s2 + i * k + j] * pow(gamma, j as nat);
    assert forall|j: int| 0 <= j < k implies #[trigger] a(j) == b(j) && s2 <= row[j].col
        < bound by {
        lemma_place(n, k, i, j);
        assert(y[s2 + i * k + j] == z[s2 + i * k + j]);
    }
    assert forall|j: int| 0 <= j < k implies s2 <= (#[trigger] row[j]).col < bound by {
        assert(a(j) == b(j));
    }
    lemma_sum_eq(k, a, b);
    lemma_sum_eq(k, |i0: int| z[(s2 + i * k) + i0] * pow(gamma, i0 as nat), a);
}

/// The entries for an input plane have its randomized value.
proof fn lemma_plane_row(
    y: Seq<int>,
    z: Seq<int>,
    bound: int,
    n: int,
    ins: int,
    side: int,
    s1: int,
    ch: int,
    gamma: int,
)
    requires
        agree(y, z, bound),
        0 <= s1,
        0 <= ch < ins,
        0 <= n * n,
        s1 + ins * (n * n) <= bound,
    ensures
        row_value(plane_row(n, side, s1, ch), z, gamma) == plane_value(y, n, side, s1, ch, gamma),
        forall|j: int|
            0 <= j < n * n ==> s1 <= (#[trigger] plane_row(n, side, s1, ch)[j]).col < bound,
{
    let row = plane_row(n, side, s1, ch);
    let nn = n * n;
    let a = |q: int| z[row[q].col] * row[q].val * pow(gamma, row[q].pow as nat);
    let b = |t: int| y[s1 + ch * (n * n) + t] * pow(gamma, ((t / n) * side + t % n) as nat);
    assert forall|j: int| 0 <= j < nn implies #[trigger] a(j) == b(j) && s1 <= row[j].col
        < bound by {
        lemma_place(ins, nn, ch, j);
        let x = y[s1 + ch * (n * n) + j];
        assert(x == z[s1 + ch * (n * n) + j]);
        assert(x * 1 == x);
    }
    assert forall|j: int| 0 <= j < nn implies s1 <= (#[trigger] row[j]).col < bound by {
        assert(a(j) == b(j));
    }
    lemma_sum_eq(nn, a, b);
}

/// The entries for the kernels of a channel have their randomized value.
proof fn lemma_kernel_row(
    y: Seq<int>,
    z: Seq<int>,
    bound: int,
    m: int,
    ins: int,
    outs: int,
    side: int,
    s2: int,
    ch: int,
    gamma: int,
)
    requires
        agree(y, z, bound),
        0 <= s2,
        0 <= ch < ins,
        0 <= outs * (m * m),
        s2 + ins * (outs * (m * m)) <= bound,
    ensures
        row_value(kernel_row(m, outs, side, s2, ch), z, gamma) == kernel_value(
            y,
            m,
            outs,
            side,
            s2,
            ch,
            gamma,
        ),
        forall|j: int|
            0 <= j < outs * (m * m) ==> s2 <= (#[trigger] kernel_row(m, outs, side, s2, ch)[j]).col
                < bound,
{
    let row = kernel_row(m, outs, side, s2, ch);
    let len = outs * (m * m);
    let a = |q: int| z[row[q].col] * row[q].val * pow(gamma, row[q].pow as nat);
    let b = |t: int|
        y[s2 + ch * (outs * (m * m)) + t] * pow(gamma, kernel_pow(m, side, t) as nat);
    assert forall|j: int| 0 <= j < len implies #[trigger] a(j) == b(j) && s2 <= row[j].col
        < bound by {
        lemma_place(ins, len, ch, j);
        let x = y[s2 + ch * (outs * (m * m)) + j];
        assert(x == z[s2 + ch * (outs * (m * m)) + j]);
        assert(x * 1 == x);
    }
    assert forall|j: int| 0 <= j < len implies s2 <= (#[trigger] row[j]).col < bound by {
        assert(a(j) == b(j));
    }
    lemma_sum_eq(len, a, b);
}

/// Rows hold of a vector: they are within it, the products are right and the lookups are
/// in the table; and only those of the second matrix read parameters.
pub open spec fn rows_hold(
    r: Rows,
    z: Seq<int>,
    gamma: int,
    table: Seq<(int, int, int)>,
    wl: int,
) -> bool {
    &&& r.a.len() == r.b.len()
    &&& r.b.len() == r.c.len()
    &&& r.d.len() == r.e.len()
    &&& r.e.len() == r.tp.len()
    &&& matrix_in_range(r.a, z.len() as int)
    &&& matrix_in_range(r.b, z.len() as int)
    &&& matrix_in_range(r.c, z.len() as int)
    &&& matrix_in_range(r.d, z.len() as int)
    &&& matrix_in_range(r.e, z.len() as int)
    &&& reads_no_weight(r.a, wl)
    &&& reads_no_weight(r.c, wl)
    &&& reads_no_weight(r.d, wl)
    &&& reads_no_weight(r.e, wl)
    &&& forall|i: int|
        0 <= i < r.a.len() ==> cong(
            row_value(#[trigger] r.a[i], z, gamma) * row_value(r.b[i], z, gamma),
            row_value(r.c[i], z, gamma),
        )
    &&& forall|i: int|
        0 <= i < r.d.len() ==> table_has(
            table,
            row_value(#[trigger] r.d[i], z, gamma),
            row_value(r.e[i], z, gamma),
            r.tp[i],
        )
}

/// The rows that one instruction appends.
pub open spec fn instr_rows(instr: Instruction, out: int, aux: int) -> Rows {
    Rows {
        a: a_rows(instr, out, aux),
        b: b_rows(instr, out, aux),
        c: c_rows(instr, out, aux),
        d: d_rows(instr, out, aux),
        e: e_rows(instr, out, aux),
        tp: lookup_tags(instr),
    }
}

/// Rows, and others after them.
pub open spec fn rows_join(r: Rows, s: Rows) -> Rows {
    Rows {
        a: r.a + s.a,
        b: r.b + s.b,
        c: r.c + s.c,
        d: r.d + s.d,
        e: r.e + s.e,
        tp: r.tp + s.tp,
    }
}

proof fn lemma_range_join(a: Seq<Seq<Entry>>, b: Seq<Seq<Entry>>, len: int, wl: int)
    requires
        matrix_in_range(a, len),
        matrix_in_range(b, len),
    ensures
        matrix_in_range(a + b, len),
        reads_no_weight(a, wl) && reads_no_weight(b, wl) ==> reads_no_weight(a + b, wl),
{
    let c = a + b;
    assert forall|i: int| 0 <= i < c.len() implies row_in_range(#[trigger] c[i], len) by {
        if i < a.len() {
            assert(c[i] == a[i]);
        } else {
            assert(c[i] == b[i - a.len()]);
        }
    }
    if reads_no_weight(a, wl) && reads_no_weight(b, wl) {
        assert forall|i: int, k: int| 0 <= i < c.len() && 0 <= k < c[i].len() implies wl <= (
        #[trigger] c[i][k]).col by {
            if i < a.len() {
                assert(c[i][k] == a[i][k]);
            } else {
                assert(c[i][k] == b[i - a.len()][k]);
            }
        }
    }
}

/// Rows hold together if they hold one by one.
proof fn lemma_rows_join(
    r: Rows,
    s: Rows,
    z: Seq<int>,
    gamma: int,
    table: Seq<(int, int, int)>,
    wl: int,
)
    requires
        rows_hold(r, z, gamma, table, wl),
        rows_hold(s, z, gamma, table, wl),
    ensures
        rows_hold(rows_join(r, s), z, gamma, table, wl),
{
    let t = rows_join(r, s);
    let len = z.len() as int;
    lemma_range_join(r.a, s.a, len, wl);
    lemma_range_join(r.b, s.b, len, wl);
    lemma_range_join(r.c, s.c, len, wl);
    lemma_range_join(r.d, s.d, len, wl);
    lemma_range_join(r.e, s.e, len, wl);
    assert forall|i: int| 0 <= i < t.a.len() implies cong(
        row_value(#[trigger] t.a[i], z, gamma) * row_value(t.b[i], z, gamma),
        row_value(t.c[i], z, gamma),
    ) by {
        let n = r.a.len() as int;
        if i < n {
            assert(t.a[i] == r.a[i]);
        } else {
            assert(t.a[i] == s.a[i - n]);
        }
    }
    assert forall|i: int| 0 <= i < t.d.len() implies table_has(
        table,
        row_value(#[trigger] t.d[i], z, gamma),
        row_value(t.e[i], z, gamma),
        t.tp[i],
    ) by {
        let n = r.d.len() as int;
        if i < n {
            assert(t.d[i] == r.d[i]);
        } else {
            assert(t.d[i] == s.d[i - n]);
        }
    }
}

/// The lookups of an instruction are in the table.
pub open spec fn lookups_found(
    instr: Instruction,
    z: Seq<int>,
    out: int,
    table: Seq<(int, int, int)>,
) -> bool {
    match instr {
        Instruction::Lookup { input, tp } => table_has(
            table,
            lin_value(input@, z, input.len() as int),
            z[out],
            tp.tag_of(),
        ),
        Instruction::Div { input1, input2, divisor } => {
            let p = lin_value(input1@, z, input1.len() as int) * lin_value(
                input2@,
                z,
                input2.len() as int,
            );
            &&& table_has(table, 0, p - divisor * z[out], LookupType::Range(divisor).tag_of())
            &&& table_has(table, 0, z[out], LookupType::Bound(QUOTIENT_BOUND).tag_of())
        },
        _ => true,
    }
}

/// An instruction uses the first cell as a one.
pub open spec fn uses_one(instr: Instruction) -> bool {
    instr is Conv || instr is MatMult
}

/// A row without errors reads cells that are there.
pub proof fn lemma_row_reads(
    idx: usize,
    row: Seq<(usize, i64)>,
    out: int,
    aux_start: int,
    least: int,
    k: int,
)
    requires
        0 <= k,
        row_error(idx, row, out, aux_start, least, k) is None,
    ensures
        forall|i: int| k <= i < row.len() ==> least <= (#[trigger] row[i]).0 < out,
    decreases row.len() - k,
{
    if k < row.len() {
        lemma_row_reads(idx, row, out, aux_start, least, k + 1);
    }
}

/// A cell of a trace, where it was written: what comes before an instruction, what the
/// instruction writes, and its advice.
pub open spec fn placed(
    instr: Instruction,
    before: Seq<int>,
    trace: Seq<int>,
    z: Seq<int>,
    aux: int,
    tables: Seq<(LookupType, LookupTable)>,
    gamma: int,
) -> bool {
    let out = before.len() as int;
    let o = instr_outputs(instr, before, tables);
    let v = instr_advice(instr, trace, out, gamma);
    &&& out + o.len() <= trace.len()
    &&& trace.len() <= aux
    &&& aux + v.len() <= z.len()
    &&& agree(before, trace, out)
    &&& agree(trace, z, trace.len() as int)
    &&& forall|t: int| 0 <= t < o.len() ==> z[out + t] == #[trigger] o[t]
    &&& forall|t: int| 0 <= t < v.len() ==> z[aux + t] == #[trigger] v[t]
}

/// The rows of a product of linear combinations hold.
proof fn lemma_add_mult(
    idx: usize,
    instr: Instruction,
    before: Seq<int>,
    trace: Seq<int>,
    z: Seq<int>,
    aux: int,
    aux_start: int,
    wl: int,
    tables: Seq<(LookupType, LookupTable)>,
    table: Seq<(int, int, int)>,
    gamma: int,
)
    requires
        instr is AddMult,
        placed(instr, before, trace, z, aux, tables, gamma),
        instr_error(idx, instr, before.len() as int, aux_start, wl, table) is None,
        0 <= wl <= before.len(),
    ensures
        rows_hold(instr_rows(instr, before.len() as int, aux), z, gamma, table, wl),
{
    let out = before.len() as int;
    let r = instr_rows(instr, out, aux);
    match instr {
        Instruction::AddMult { input1, input2 } => {
            lemma_row_reads(idx, input1@, out, aux_start, wl, 0);
            lemma_row_reads(idx, input2@, out, aux_start, 0, 0);
            lemma_plain_row(input1@, z, gamma);
            lemma_plain_row(input2@, z, gamma);
            lemma_cell(out, z, gamma);
            assert(agree(before, z, out));
            lemma_lin_prefix(input1@, before, z, out);
            lemma_lin_prefix(input2@, before, z, out);
            assert(z[out + 0] == instr_outputs(instr, before, tables)[0]);
        },
        _ => {},
    }
}

/// The rows of a lookup hold.
proof fn lemma_lookup(
    idx: usize,
    instr: Instruction,
    before: Seq<int>,
    trace: Seq<int>,
    z: Seq<int>,
    aux: int,
    aux_start: int,
    wl: int,
    tables: Seq<(LookupType, LookupTable)>,
    table: Seq<(int, int, int)>,
    gamma: int,
)
    requires
        instr is Lookup,
        placed(instr, before, trace, z, aux, tables, gamma),
        instr_error(idx, instr, before.len() as int, aux_start, wl, table) is None,
        lookups_found(instr, trace, before.len() as int, table),
        0 <= wl <= before.len(),
    ensures
        rows_hold(instr_rows(instr, before.len() as int, aux), z, gamma, table, wl),
{
    let out = before.len() as int;
    match instr {
        Instruction::Lookup { input, tp } => {
            lemma_row_reads(idx, input@, out, aux_start, wl, 0);
            lemma_plain_row(input@, z, gamma);
            lemma_cell(out, z, gamma);
            assert(agree(trace, z, out));
            lemma_lin_prefix(input@, trace, z, out);
            assert(trace[out] == z[out]);
        },
        _ => {},
    }
}

/// The rows of a division hold.
#[verifier::rlimit(30)]
proof fn lemma_div(
    idx: usize,
    instr: Instruction,
    before: Seq<int>,
    trace: Seq<int>,
    z: Seq<int>,
    aux: int,
    aux_start: int,
    wl: int,
    tables: Seq<(LookupType, LookupTable)>,
    table: Seq<(int, int, int)>,
    gamma: int,
)
    requires
        instr is Div,
        placed(instr, before, trace, z, aux, tables, gamma),
        instr_error(idx, instr, before.len() as int, aux_start, wl, table) is None,
        lookups_found(instr, trace, before.len() as int, table),
        0 <= wl <= before.len(),
    ensures
        rows_hold(instr_rows(instr, before.len() as int, aux), z, gamma, table, wl),
{
    let out = before.len() as int;
    let r = instr_rows(instr, out, aux);
    match instr {
        Instruction::Div { input1, input2, divisor } => {
            lemma_row_reads(idx, input1@, out, aux_start, wl, 0);
            lemma_row_reads(idx, input2@, out, aux_start, 0, 0);
            lemma_plain_row(input1@, z, gamma);
            lemma_plain_row(input2@, z, gamma);
            assert(agree(trace, z, out));
            lemma_lin_prefix(input1@, trace, z, out);
            lemma_lin_prefix(input2@, trace, z, out);
            lemma_cell(out, z, gamma);
            lemma_cell(aux, z, gamma);
            assert(trace[out] == z[out]);
            let v = instr_advice(instr, trace, out, gamma);
            assert(z[aux + 0] == v[0]);
            let row = seq![Entry { col: out, val: divisor as int, pow: 0 }, cell(aux)];
            let f = |k: int| z[row[k].col] * row[k].val * pow(gamma, row[k].pow as nat);
            reveal_with_fuel(sum_to, 3);
            lemma_pow0(gamma);
            assert(row_value(row, z, gamma) == f(0) + f(1));
            let x = z[out];
            let d = divisor as int;
            let w = z[aux];
            assert(x * d * 1 == d * x) by (nonlinear_arith);
            assert(w * 1 * 1 == w) by (nonlinear_arith);
            assert(r.c[0] == row);
            let none = Seq::<Entry>::empty();
            assert(row_value(none, z, gamma) == 0);
            assert(r.d[0] == none && r.d[1] == none);
            assert(r.e[0] == seq![cell(aux)] && r.e[1] == seq![cell(out)]);
        },
        _ => {},
    }
}

/// A cell that is a one does not change what it multiplies.
proof fn lemma_times_one(x: int, y: int, one: int)
    requires
        x == y,
        cong(one, 1),
    ensures
        cong(x * one, y),
{
    lemma_cong_ops(x, x, one, 1);
    assert(x * 1 == x);
}

/// The rows of a matrix product hold.
#[verifier::rlimit(60)]
proof fn lemma_mat_mult(
    idx: usize,
    instr: Instruction,
    before: Seq<int>,
    trace: Seq<int>,
    z: Seq<int>,
    aux: int,
    aux_start: int,
    wl: int,
    tables: Seq<(LookupType, LookupTable)>,
    table: Seq<(int, int, int)>,
    gamma: int,
)
    requires
        instr is MatMult,
        placed(instr, before, trace, z, aux, tables, gamma),
        instr_error(idx, instr, before.len() as int, aux_start, wl, table) is None,
        0 <= wl <= before.len(),
        cong(z[0], 1),
    ensures
        rows_hold(instr_rows(instr, before.len() as int, aux), z, gamma, table, wl),
{
    let out = before.len() as int;
    let r = instr_rows(instr, out, aux);
    let v = instr_advice(instr, trace, out, gamma);
    match instr {
        Instruction::MatMult { m, n, k, start1, start2 } => {
            let mi = m as int;
            let ni = n as int;
            let ki = k as int;
            let s1 = start1 as int;
            let s2 = start2 as int;
            assert(mi * ki >= 0) by (nonlinear_arith)
                requires
                    mi >= 0,
                    ki >= 0,
            ;
            assert(agree(before, z, out));
            assert(agree(before, trace, out));
            let l = |i: int| left_value(before, mi, ki, s1, i, gamma);
            let g = |i: int| right_value(before, ki, s2, i, gamma);
            assert forall|i: int| 0 <= i < ni implies row_in_range(
                #[trigger] r.a[i],
                z.len() as int,
            ) && cong(
                row_value(r.a[i], z, gamma) * row_value(r.b[i], z, gamma),
                row_value(r.c[i], z, gamma),
            ) && row_value(r.a[i], z, gamma) == l(i) && row_in_range(r.b[i], z.len() as int)
                && z[aux + i] == l(i) * g(i) && (forall|q: int|
                0 <= q < r.a[i].len() ==> wl <= (#[trigger] r.a[i][q]).col) by {
                lemma_left_row(before, z, out, mi, ni, ki, s1, i, gamma);
                lemma_right_row(before, z, out, ni, ki, s2, i, gamma);
                lemma_left_row(before, trace, out, mi, ni, ki, s1, i, gamma);
                lemma_left_row(trace, trace, out, mi, ni, ki, s1, i, gamma);
                lemma_right_row(before, trace, out, ni, ki, s2, i, gamma);
                lemma_right_row(trace, trace, out, ni, ki, s2, i, gamma);
                assert(r.a[i] == left_row(mi, ki, s1, i));
                assert(r.b[i] == graded(s2 + i * ki, ki));
                assert(r.c[i] == seq![cell(aux + i)]);
                lemma_cell(aux + i, z, gamma);
                assert(z[aux + i] == v[i]);
            }
            // the last row
            assert(r.a[ni] == cells(aux, ni));
            assert(r.b[ni] == seq![cell(0)]);
            assert(r.c[ni] == graded(out, instr.outputs()));
            lemma_cells(aux, ni, z, gamma);
            lemma_cell(0, z, gamma);
            lemma_graded(out, mi * ki, z, gamma);
            law_mat_product(before, mi, ni, ki, s1, s2, gamma);
            let a0 = |i: int| z[aux + i];
            let a1 = |i: int|
                left_value(before, mi, ki, s1, i, gamma) * right_value(before, ki, s2, i, gamma);
            assert forall|i: int| 0 <= i < ni implies #[trigger] a0(i) == a1(i) by {
                assert(row_in_range(r.a[i], z.len() as int));
            }
            lemma_sum_eq(ni, a0, a1);
            let o = instr_outputs(instr, before, tables);
            let c0 = |i: int| z[out + i] * pow(gamma, i as nat);
            let c1 = |t: int|
                mat_entry(before, mi, ki, s1, s2, t / ki, t % ki, ni) * pow(gamma, t as nat);
            assert forall|i: int| 0 <= i < mi * ki implies #[trigger] c0(i) == c1(i) by {
                assert(z[out + i] == o[i]);
            }
            lemma_sum_eq(mi * ki, c0, c1);
            lemma_times_one(
                row_value(r.a[ni], z, gamma),
                row_value(r.c[ni], z, gamma),
                z[0],
            );
            lemma_matrix_rows(instr, out, aux, before, trace, z, tables, gamma, wl);
            assert(rows_hold(r, z, gamma, table, wl)) by {
                assert forall|i: int| 0 <= i < r.a.len() implies cong(
                    row_value(#[trigger] r.a[i], z, gamma) * row_value(r.b[i], z, gamma),
                    row_value(r.c[i], z, gamma),
                ) by {
                    if i < ni {
                        assert(row_in_range(r.a[i], z.len() as int));
                    } else {
                        assert(i == ni);
                    }
                }
                assert forall|i: int| 0 <= i < r.a.len() implies row_in_range(
                    #[trigger] r.a[i],
                    z.len() as int,
                ) by {}
                assert forall|i: int| 0 <= i < r.b.len() implies row_in_range(
                    #[trigger] r.b[i],
                    z.len() as int,
                ) by {
                    if i < ni {
                        assert(row_in_range(r.a[i], z.len() as int));
                    } else {
                        assert(i == ni);
                    }
                }
                assert forall|i: int, q: int| 0 <= i < r.a.len() && 0 <= q < r.a[i].len() implies wl
                    <= (#[trigger] r.a[i][q]).col by {
                    if i < ni {
                        assert(row_in_range(r.a[i], z.len() as int));
                    } else {
                        assert(i == ni);
                    }
                }
            }
        },
        _ => {},
    }
}

/// The rows of the third matrix, and the lookups, of a product read cells that are there.
proof fn lemma_matrix_rows(
    instr: Instruction,
    out: int,
    aux: int,
    before: Seq<int>,
    trace: Seq<int>,
    z: Seq<int>,
    tables: Seq<(LookupType, LookupTable)>,
    gamma: int,
    wl: int,
)
    requires
        uses_one(instr),
        out == before.len(),
        placed(instr, before, trace, z, aux, tables, gamma),
        instr_outputs(instr, before, tables).len() == instr.outputs(),
        0 <= wl <= out,
    ensures
        matrix_in_range(c_rows(instr, out, aux), z.len() as int),
        reads_no_weight(c_rows(instr, out, aux), wl),
        d_rows(instr, out, aux).len() == 0,
        e_rows(instr, out, aux).len() == 0,
        lookup_tags(instr).len() == 0,
{
    let c = c_rows(instr, out, aux);
    let n = instr_advice(instr, trace, out, gamma).len() as int;
    assert(c.len() == n + 1);
    assert forall|i: int| 0 <= i < c.len() implies row_in_range(
        #[trigger] c[i],
        z.len() as int,
    ) by {
        if i < n {
            assert(c[i] == seq![cell(aux + i)]);
        } else {
            assert(c[i] == graded(out, instr.outputs()));
        }
    }
    assert forall|i: int, q: int| 0 <= i < c.len() && 0 <= q < c[i].len() implies wl <= (
    #[trigger] c[i][q]).col by {
        if i < n {
            assert(c[i] == seq![cell(aux + i)]);
        } else {
            assert(c[i] == graded(out, instr.outputs()));
        }
    }
}

/// The rows of a convolution hold.
#[verifier::rlimit(80)]
proof fn lemma_conv(
    idx: usize,
    instr: Instruction,
    before: Seq<int>,
    trace: Seq<int>,
    z: Seq<int>,
    aux: int,
    aux_start: int,
    wl: int,
    tables: Seq<(LookupType, LookupTable)>,
    table: Seq<(int, int, int)>,
    gamma: int,
)
    requires
        instr is Conv,
        placed(instr, before, trace, z, aux, tables, gamma),
        instr_error(idx, instr, before.len() as int, aux_start, wl, table) is None,
        instr_outputs(instr, before, tables).len() == instr.outputs(),
        0 <= wl <= before.len(),
        cong(z[0], 1),
    ensures
        rows_hold(instr_rows(instr, before.len() as int, aux), z, gamma, table, wl),
{
    let out = before.len() as int;
    let r = instr_rows(instr, out, aux);
    let v = instr_advice(instr, trace, out, gamma);
    match instr {
        Instruction::Conv { n, m, in_channels, out_channels, start1, start2 } => {
            let n0 = n as int;
            let m0 = m as int;
            let ins = in_channels as int;
            let outs = out_channels as int;
            let s1 = start1 as int;
            let s2 = start2 as int;
            let side = n0 + m0 - 1;
            let plane = side * side;
            assert(n0 * n0 >= 0 && m0 * m0 >= 0) by (nonlinear_arith);
            assert(outs * (m0 * m0) >= 0) by (nonlinear_arith)
                requires
                    outs >= 0,
                    m0 * m0 >= 0,
            ;
            assert(outs * side * side == outs * plane) by (nonlinear_arith)
                requires
                    plane == side * side,
            ;
            assert(outs * plane >= 0) by (nonlinear_arith)
                requires
                    outs >= 0,
                    plane == side * side,
            ;
            assert(agree(before, z, out));
            assert(agree(before, trace, out));
            let l = |i: int| plane_value(before, n0, side, s1, i, gamma);
            let g = |i: int| kernel_value(before, m0, outs, side, s2, i, gamma);
            assert forall|i: int| 0 <= i < ins implies row_in_range(
                #[trigger] r.a[i],
                z.len() as int,
            ) && cong(
                row_value(r.a[i], z, gamma) * row_value(r.b[i], z, gamma),
                row_value(r.c[i], z, gamma),
            ) && row_in_range(r.b[i], z.len() as int) && z[aux + i] == l(i) * g(i) && (forall|
                q: int,
            | 0 <= q < r.a[i].len() ==> wl <= (#[trigger] r.a[i][q]).col) by {
                lemma_plane_row(before, z, out, n0, ins, side, s1, i, gamma);
                lemma_kernel_row(before, z, out, m0, ins, outs, side, s2, i, gamma);
                lemma_plane_row(before, trace, out, n0, ins, side, s1, i, gamma);
                lemma_plane_row(trace, trace, out, n0, ins, side, s1, i, gamma);
                lemma_kernel_row(before, trace, out, m0, ins, outs, side, s2, i, gamma);
                lemma_kernel_row(trace, trace, out, m0, ins, outs, side, s2, i, gamma);
                assert(r.a[i] == plane_row(n0, side, s1, i));
                assert(r.b[i] == kernel_row(m0, outs, side, s2, i));
                assert(r.c[i] == seq![cell(aux + i)]);
                lemma_cell(aux + i, z, gamma);
                assert(z[aux + i] == v[i]);
            }
            assert(r.a[ins] == cells(aux, ins));
            assert(r.b[ins] == seq![cell(0)]);
            assert(r.c[ins] == graded(out, instr.outputs()));
            lemma_cells(aux, ins, z, gamma);
            lemma_cell(0, z, gamma);
            lemma_graded(out, outs * plane, z, gamma);
            law_convolution(before, n0, m0, ins, outs, s1, s2, gamma);
            let a0 = |i: int| z[aux + i];
            let a1 = |ch: int|
                plane_value(before, n0, side, s1, ch, gamma) * kernel_value(
                    before,
                    m0,
                    outs,
                    side,
                    s2,
                    ch,
                    gamma,
                );
            assert forall|i: int| 0 <= i < ins implies #[trigger] a0(i) == a1(i) by {
                assert(row_in_range(r.a[i], z.len() as int));
            }
            lemma_sum_eq(ins, a0, a1);
            let o = instr_outputs(instr, before, tables);
            let c0 = |i: int| z[out + i] * pow(gamma, i as nat);
            let c1 = |t: int|
                conv_cell(
                    before,
                    n0,
                    m0,
                    outs,
                    s1,
                    s2,
                    t / plane,
                    (t / side) % side,
                    t % side,
                    ins * (m0 * m0),
                ) * pow(gamma, t as nat);
            assert forall|i: int| 0 <= i < outs * plane implies #[trigger] c0(i) == c1(i) by {
                assert(z[out + i] == o[i]);
            }
            lemma_sum_eq(outs * plane, c0, c1);
            lemma_times_one(
                row_value(r.a[ins], z, gamma),
                row_value(r.c[ins], z, gamma),
                z[0],
            );
            lemma_matrix_rows(instr, out, aux, before, trace, z, tables, gamma, wl);
            assert(rows_hold(r, z, gamma, table, wl)) by {
                assert forall|i: int| 0 <= i < r.a.len() implies cong(
                    row_value(#[trigger] r.a[i], z, gamma) * row_value(r.b[i], z, gamma),
                    row_value(r.c[i], z, gamma),
                ) by {
                    if i < ins {
                        assert(row_in_range(r.a[i], z.len() as int));
                    } else {
                        assert(i == ins);
                    }
                }
                assert forall|i: int| 0 <= i < r.a.len() implies row_in_range(
                    #[trigger] r.a[i],
                    z.len() as int,
                ) by {}
                assert forall|i: int| 0 <= i < r.b.len() implies row_in_range(
                    #[trigger] r.b[i],
                    z.len() as int,
                ) by {
                    if i < ins {
                        assert(row_in_range(r.a[i], z.len() as int));
                    } else {
                        assert(i == ins);
                    }
                }
                assert forall|i: int, q: int| 0 <= i < r.a.len() && 0 <= q < r.a[i].len() implies wl
                    <= (#[trigger] r.a[i][q]).col by {
                    if i < ins {
                        assert(row_in_range(r.a[i], z.len() as int));
                    } else {
                        assert(i == ins);
                    }
                }
            }
        },
        _ => {},
    }
}

/// A valid instruction writes as many cells as it says, and leaves as much advice.
proof fn lemma_instr_lens(
    idx: usize,
    instr: Instruction,
    before: Seq<int>,
    trace: Seq<int>,
    aux_start: int,
    wl: int,
    tables: Seq<(LookupType, LookupTable)>,
    table: Seq<(int, int, int)>,
    gamma: int,
)
    requires
        instr_error(idx, instr, before.len() as int, aux_start, wl, table) is None,
    ensures
        instr_outputs(instr, before, tables).len() == instr.outputs(),
        instr_advice(instr, trace, before.len() as int, gamma).len() == advice_len(instr),
        instr.outputs() >= 0,
{
    match instr {
        Instruction::Conv { n, m, in_channels, out_channels, start1, start2 } => {
            let outs = out_channels as int;
            let side = n + m - 1;
            let plane = side * side;
            assert(outs * side * side == outs * plane) by (nonlinear_arith)
                requires
                    plane == side * side,
            ;
            assert(outs * plane >= 0) by (nonlinear_arith)
                requires
                    outs >= 0,
                    plane == side * side,
            ;
        },
        Instruction::MatMult { m, n, k, start1, start2 } => {
            let a = m as int;
            let b = k as int;
            assert(a * b >= 0) by (nonlinear_arith)
                requires
                    a >= 0,
                    b >= 0,
            ;
        },
        _ => {},
    }
}

/// The trace of the first `k` instructions is the start of the trace.
proof fn lemma_run_prefix(
    instrs: Seq<Instruction>,
    k: int,
    q: int,
    z0: Seq<int>,
    tables: Seq<(LookupType, LookupTable)>,
)
    requires
        0 <= k <= q,
    ensures
        run(instrs, k, z0, tables).len() <= run(instrs, q, z0, tables).len(),
        agree(
            run(instrs, k, z0, tables),
            run(instrs, q, z0, tables),
            run(instrs, k, z0, tables).len() as int,
        ),
    decreases q,
{
    if k < q {
        lemma_run_prefix(instrs, k, q - 1, z0, tables);
    }
}

/// The advice of the first `k` instructions is the start of the advice.
proof fn lemma_advice_prefix(
    instrs: Seq<Instruction>,
    k: int,
    q: int,
    z: Seq<int>,
    start: int,
    gamma: int,
)
    requires
        0 <= k <= q,
    ensures
        advice(instrs, k, z, start, gamma).len() <= advice(instrs, q, z, start, gamma).len(),
        agree(
            advice(instrs, k, z, start, gamma),
            advice(instrs, q, z, start, gamma),
            advice(instrs, k, z, start, gamma).len() as int,
        ),
    decreases q,
{
    if k < q {
        lemma_advice_prefix(instrs, k, q - 1, z, start, gamma);
    }
}

/// The trace and the advice of the first `k` instructions are as long as the compilation
/// counts.
proof fn lemma_lens(
    instrs: Seq<Instruction>,
    k: int,
    z0: Seq<int>,
    trace: Seq<int>,
    aux_start: int,
    wl: int,
    tables: Seq<(LookupType, LookupTable)>,
    table: Seq<(int, int, int)>,
    gamma: int,
)
    requires
        0 <= k <= instrs.len(),
        program_error(instrs, 0, z0.len() as int, aux_start, wl, table) is None,
    ensures
        run(instrs, k, z0, tables).len() == out_at(instrs, z0.len() as int, k),
        aux_at(instrs, aux_start, k) == aux_start + advice(
            instrs,
            k,
            trace,
            z0.len() as int,
            gamma,
        ).len(),
    decreases k,
{
    if k > 0 {
        let start = z0.len() as int;
        lemma_lens(instrs, k - 1, z0, trace, aux_start, wl, tables, table, gamma);
        lemma_no_error(instrs, k - 1, start, aux_start, wl, table);
        let before = run(instrs, k - 1, z0, tables);
        lemma_instr_lens(
            (k - 1) as usize,
            instrs[k - 1],
            before,
            trace,
            aux_start,
            wl,
            tables,
            table,
            gamma,
        );
    }
}

/// Everything that an execution looks up is in the table.
pub open spec fn all_found(
    instrs: Seq<Instruction>,
    trace: Seq<int>,
    start: int,
    table: Seq<(int, int, int)>,
) -> bool {
    forall|k: int|
        0 <= k < instrs.len() ==> lookups_found(
            #[trigger] instrs[k],
            trace,
            out_at(instrs, start, k),
            table,
        )
}

/// Where an instruction needs a one, the first cell is one.
pub open spec fn starts_with_one(instrs: Seq<Instruction>, z: Seq<int>) -> bool {
    forall|k: int| 0 <= k < instrs.len() && uses_one(#[trigger] instrs[k]) ==> cong(z[0], 1)
}

/// A valid product writes at least one cell.
proof fn lemma_writes(
    idx: usize,
    instr: Instruction,
    out: int,
    aux_start: int,
    wl: int,
    table: Seq<(int, int, int)>,
)
    requires
        uses_one(instr),
        instr_error(idx, instr, out, aux_start, wl, table) is None,
    ensures
        instr.outputs() > 0,
{
    match instr {
        Instruction::Conv { n, m, in_channels, out_channels, start1, start2 } => {
            let outs = out_channels as int;
            let side = n + m - 1;
            assert(outs * side > 0) by (nonlinear_arith)
                requires
                    outs > 0,
                    side > 0,
            ;
            assert(outs * side * side > 0) by (nonlinear_arith)
                requires
                    outs * side > 0,
                    side > 0,
            ;
        },
        Instruction::MatMult { m, n, k, start1, start2 } => {
            let a = m as int;
            let b = k as int;
            assert(a * b > 0) by (nonlinear_arith)
                requires
                    a > 0,
                    b > 0,
            ;
        },
        _ => {},
    }
}

/// The rows of the first `k` instructions hold.
#[verifier::rlimit(40)]
proof fn lemma_rows(
    instrs: Seq<Instruction>,
    k: int,
    z0: Seq<int>,
    aux_start: int,
    wl: int,
    tables: Seq<(LookupType, LookupTable)>,
    table: Seq<(int, int, int)>,
    gamma: int,
)
    requires
        0 <= k <= instrs.len(),
        program_error(instrs, 0, z0.len() as int, aux_start, wl, table) is None,
        0 <= wl <= z0.len(),
        starts_with_one(instrs, run(instrs, instrs.len() as int, z0, tables)),
        all_found(
            instrs,
            run(instrs, instrs.len() as int, z0, tables),
            z0.len() as int,
            table,
        ),
    ensures
        ({
            let q = instrs.len() as int;
            let trace = run(instrs, q, z0, tables);
            let z = trace + advice(instrs, q, trace, z0.len() as int, gamma);
            rows_hold(rows_of(instrs, k, z0.len() as int, aux_start), z, gamma, table, wl)
        }),
    decreases k,
{
    let q = instrs.len() as int;
    let start = z0.len() as int;
    let trace = run(instrs, q, z0, tables);
    let z = trace + advice(instrs, q, trace, start, gamma);
    if k > 0 {
        lemma_rows(instrs, k - 1, z0, aux_start, wl, tables, table, gamma);
        lemma_no_error(instrs, k - 1, start, aux_start, wl, table);
        lemma_no_error(instrs, q, start, aux_start, wl, table);
        lemma_lens(instrs, k - 1, z0, trace, aux_start, wl, tables, table, gamma);
        lemma_lens(instrs, q, z0, trace, aux_start, wl, tables, table, gamma);
        let instr = instrs[k - 1];
        let idx = (k - 1) as usize;
        let before = run(instrs, k - 1, z0, tables);
        let after = run(instrs, k, z0, tables);
        let out = before.len() as int;
        let aux = aux_at(instrs, aux_start, k - 1);
        let o = instr_outputs(instr, before, tables);
        let v = instr_advice(instr, trace, out, gamma);
        lemma_instr_lens(idx, instr, before, trace, aux_start, wl, tables, table, gamma);
        lemma_run_prefix(instrs, k - 1, q, z0, tables);
        lemma_run_prefix(instrs, k, q, z0, tables);
        lemma_run_prefix(instrs, 0, k - 1, z0, tables);
        lemma_advice_prefix(instrs, k, q, trace, start, gamma);
        let adv0 = advice(instrs, k - 1, trace, start, gamma);
        let adv1 = advice(instrs, k, trace, start, gamma);
        let advq = advice(instrs, q, trace, start, gamma);
        assert(placed(instr, before, trace, z, aux, tables, gamma)) by {
            assert forall|t: int| 0 <= t < o.len() implies z[out + t] == #[trigger] o[t] by {
                assert(after[out + t] == o[t]);
                assert(after[out + t] == trace[out + t]);
            }
            assert forall|t: int| 0 <= t < v.len() implies z[aux + t] == #[trigger] v[t] by {
                let i = adv0.len() + t;
                assert(adv1[i] == v[t]);
                assert(adv1[i] == advq[i]);
                assert(z[trace.len() + i] == advq[i]);
            }
            assert(agree(trace, z, trace.len() as int));
        }
        assert(lookups_found(instrs[k - 1], trace, out, table));
        if uses_one(instr) {
            lemma_writes(idx, instr, out, aux_start, wl, table);
            assert(cong(trace[0], 1));
        }
        match instr {
            Instruction::AddMult { .. } => {
                lemma_add_mult(
                    idx,
                    instr,
                    before,
                    trace,
                    z,
                    aux,
                    aux_start,
                    wl,
                    tables,
                    table,
                    gamma,
                );
            },
            Instruction::Conv { .. } => {
                lemma_conv(
                    idx,
                    instr,
                    before,
                    trace,
                    z,
                    aux,
                    aux_start,
                    wl,
                    tables,
                    table,
                    gamma,
                );
            },
            Instruction::Lookup { .. } => {
                lemma_lookup(
                    idx,
                    instr,
                    before,
                    trace,
                    z,
                    aux,
                    aux_start,
                    wl,
                    tables,
                    table,
                    gamma,
                );
            },
            Instruction::Div { .. } => {
                lemma_div(
                    idx,
                    instr,
                    before,
                    trace,
                    z,
                    aux,
                    aux_start,
                    wl,
                    tables,
                    table,
                    gamma,
                );
            },
            Instruction::MatMult { .. } => {
                lemma_mat_mult(
                    idx,
                    instr,
                    before,
                    trace,
                    z,
                    aux,
                    aux_start,
                    wl,
                    tables,
                    table,
                    gamma,
                );
            },
        }
        let r0 = rows_of(instrs, k - 1, start, aux_start);
        lemma_rows_join(r0, instr_rows(instr, out, aux), z, gamma, table, wl);
    }
}

/// What a program without errors writes, and the advice for it, satisfy the circuit that
/// it compiles to, if everything that it looks up is in the table; and only the second
/// matrix of the circuit reads parameters, which the vector starts with.
pub proof fn law_execution(
    instrs: Seq<Instruction>,
    weights: Seq<i64>,
    input: Seq<i64>,
    tables: Seq<(LookupType, LookupTable)>,
    aux_start: int,
    table: Seq<(int, int, int)>,
    gamma: int,
)
    requires
        validity_error(
            instrs,
            weights.len() as int,
            input.len() as int,
            aux_start,
            table,
        ) is None,
        starts_with_one(
            instrs,
            run(instrs, instrs.len() as int, ints(weights + input), tables),
        ),
        all_found(
            instrs,
            run(instrs, instrs.len() as int, ints(weights + input), tables),
            (weights.len() + input.len()) as int,
            table,
        ),
    ensures
        ({
            let q = instrs.len() as int;
            let start = (weights.len() + input.len()) as int;
            let trace = run(instrs, q, ints(weights + input), tables);
            let z = trace + advice(instrs, q, trace, start, gamma);
            let c = circuit_of(instrs, weights, input.len() as int, aux_start, table);
            &&& satisfied(c, z, gamma)
            &&& z.len() == c.z_len
            &&& holds_weights(c, z)
            &&& reads_no_weight(c.a, c.weight_len)
            &&& reads_no_weight(c.c, c.weight_len)
            &&& reads_no_weight(c.d, c.weight_len)
            &&& reads_no_weight(c.e, c.weight_len)
        }),
{
    let q = instrs.len() as int;
    let z0 = ints(weights + input);
    let start = z0.len() as int;
    let wl = weights.len() as int;
    let trace = run(instrs, q, z0, tables);
    let z = trace + advice(instrs, q, trace, start, gamma);
    let c = circuit_of(instrs, weights, input.len() as int, aux_start, table);
    lemma_rows(instrs, q, z0, aux_start, wl, tables, table, gamma);
    lemma_lens(instrs, q, z0, trace, aux_start, wl, tables, table, gamma);
    lemma_no_error(instrs, q, start, aux_start, wl, table);
    lemma_run_prefix(instrs, 0, q, z0, tables);
    assert(holds_weights(c, z)) by {
        assert forall|i: int| 0 <= i < c.weight_len implies cong(#[trigger] z[i], c.weights[i]) by {
            assert(z0[i] == trace[i]);
            assert(z0[i] == weights[i]);
        }
    }
}

} // verus!
