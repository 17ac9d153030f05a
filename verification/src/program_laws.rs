//! What the cells of a run hold, and which programs compile.
use vstd::prelude::*;
use vstd::arithmetic::div_mod::*;
use crate::circuit::{LookupType, QUOTIENT_BOUND};
use crate::compiler::{
    CompileError, instr_error, lemma_no_error, operands_fit, program_error, program_fits, row_error,
    validity_error,
};
use crate::field::cong;
use crate::instruction::Instruction;
use crate::program::{
    LookupTable, conv_cell, conv_term, find_table, instr_ok, instr_outputs, lin_value, mat_entry,
    mat_term, out_at, run, runs, table_index, types_once,
};
use crate::sums::{lemma_sum_eq, lemma_sum_split, sum_to};

verus! {

proof fn lemma_find_table(tables: Seq<(LookupType, LookupTable)>, tp: LookupType, k: int)
    requires
        0 <= k <= tables.len(),
    ensures
        find_table(tables, tp, k) >= -1,
        find_table(tables, tp, k) < k,
        find_table(tables, tp, k) >= 0 ==> tables[find_table(tables, tp, k)].0 == tp,
        find_table(tables, tp, k) >= 0 ==> forall|j: int|
            0 <= j < find_table(tables, tp, k) ==> (#[trigger] tables[j]).0 != tp,
        find_table(tables, tp, k) < 0 ==> forall|j: int|
            0 <= j < k ==> (#[trigger] tables[j]).0 != tp,
    decreases k,
{
    if k > 0 {
        lemma_find_table(tables, tp, k - 1);
    }
}

/// The table that is found for a type is one for the type, the first of them; none is found
/// only if there is none; and of tables for different types the one for the type is found.
pub proof fn law_table_found(tables: Seq<(LookupType, LookupTable)>, tp: LookupType)
    ensures
        table_index(tables, tp) < tables.len(),
        0 <= table_index(tables, tp) ==> tables[table_index(tables, tp)].0 == tp,
        0 <= table_index(tables, tp) ==> forall|j: int|
            0 <= j < table_index(tables, tp) ==> (#[trigger] tables[j]).0 != tp,
        table_index(tables, tp) < 0 ==> forall|j: int|
            0 <= j < tables.len() ==> (#[trigger] tables[j]).0 != tp,
        types_once(tables) ==> forall|j: int|
            0 <= j < tables.len() && (#[trigger] tables[j]).0 == tp ==> j == table_index(
                tables,
                tp,
            ),
{
    lemma_find_table(tables, tp, tables.len() as int);
    let i = table_index(tables, tp);
    if types_once(tables) {
        assert forall|j: int| 0 <= j < tables.len() && (#[trigger] tables[j]).0 == tp implies j
            == i by {
            assert(i >= 0);
            assert(tables[i].0 == tp);
        }
    }
}

/// A table gives the value that is tabulated for an argument, the first value for what is
/// less than every tabulated argument, and the last value for what is greater than all.
pub proof fn law_table_value(t: LookupTable, x: int)
    requires
        t.usable(),
    ensures
        forall|i: int|
            0 <= i < t.entries().len() && x == t.least() + i ==> t.value_at(x)
                == #[trigger] t.entries()[i],
        x < t.least() ==> t.value_at(x) == t.entries()[0],
        x >= t.least() + t.entries().len() ==> t.value_at(x) == t.entries().last(),
{
}

/// An instruction leaves the cells that are there and appends what it writes.
pub proof fn law_run_step(
    instrs: Seq<Instruction>,
    k: int,
    z0: Seq<int>,
    tables: Seq<(LookupType, LookupTable)>,
)
    requires
        0 <= k < instrs.len(),
        runs(instrs, z0, tables),
    ensures
        run(instrs, 0, z0, tables) == z0,
        run(instrs, k + 1, z0, tables).len() == run(instrs, k, z0, tables).len()
            + instrs[k].outputs(),
        run(instrs, k + 1, z0, tables).take(run(instrs, k, z0, tables).len() as int) == run(
            instrs,
            k,
            z0,
            tables,
        ),
{
    let z = run(instrs, k, z0, tables);
    assert(instr_ok(instrs[k], z, tables));
    match instrs[k] {
        Instruction::Conv { n, m, in_channels, out_channels, start1, start2 } => {
            let outs = out_channels as int;
            let side = n + m - 1;
            let plane = side * side;
            assert(outs * side * side == outs * plane) by (nonlinear_arith)
                requires
                    plane == side * side,
            ;
            assert(outs * plane >= 0) by (nonlinear_arith)
                requires
                    outs >= 0,
                    plane == side * side,
            ;
        },
        Instruction::MatMult { m, n, k: cols, start1, start2 } => {
            let a = m as int;
            let b = cols as int;
            assert(a * b >= 0) by (nonlinear_arith)
                requires
                    a >= 0,
                    b >= 0,
            ;
        },
        _ => {},
    }
    assert(run(instrs, k + 1, z0, tables).take(z.len() as int) =~= z);
}

/// A product instruction writes the product of its two sums of multiples of cells.
pub proof fn law_run_product(
    instrs: Seq<Instruction>,
    k: int,
    z0: Seq<int>,
    tables: Seq<(LookupType, LookupTable)>,
)
    requires
        0 <= k < instrs.len(),
        instrs[k] is AddMult,
    ensures
        ({
            let z = run(instrs, k, z0, tables);
            let u = instrs[k]->AddMult_input1@;
            let v = instrs[k]->AddMult_input2@;
            run(instrs, k + 1, z0, tables) == z.push(
                sum_to(u.len() as int, |i: int| z[u[i].0 as int] * u[i].1) * sum_to(
                    v.len() as int,
                    |i: int| z[v[i].0 as int] * v[i].1,
                ),
            )
        }),
{
    let z = run(instrs, k, z0, tables);
    let w = run(instrs, k + 1, z0, tables);
    let u = instrs[k]->AddMult_input1@;
    let v = instrs[k]->AddMult_input2@;
    lemma_sum_eq(
        u.len() as int,
        |j: int| z[u[j].0 as int] * u[j].1,
        |i: int| z[u[i].0 as int] * u[i].1,
    );
    assert(w =~= z.push(w[z.len() as int]));
}

/// A division writes the quotient of the product of its two sums, rounded down.
pub proof fn law_run_quotient(
    instrs: Seq<Instruction>,
    k: int,
    z0: Seq<int>,
    tables: Seq<(LookupType, LookupTable)>,
)
    requires
        0 <= k < instrs.len(),
        instrs[k] is Div,
        instrs[k]->divisor > 0,
    ensures
        ({
            let z = run(instrs, k, z0, tables);
            let w = run(instrs, k + 1, z0, tables);
            let u = instrs[k]->Div_input1@;
            let v = instrs[k]->Div_input2@;
            let d = instrs[k]->divisor as int;
            let x = sum_to(u.len() as int, |i: int| z[u[i].0 as int] * u[i].1) * sum_to(
                v.len() as int,
                |i: int| z[v[i].0 as int] * v[i].1,
            );
            let y = w[z.len() as int];
            &&& w == z.push(y)
            &&& d * y <= x < d * y + d
        }),
{
    let z = run(instrs, k, z0, tables);
    let w = run(instrs, k + 1, z0, tables);
    let u = instrs[k]->Div_input1@;
    let v = instrs[k]->Div_input2@;
    let d = instrs[k]->divisor as int;
    let x = lin_value(u, z, u.len() as int) * lin_value(v, z, v.len() as int);
    let y = w[z.len() as int];
    assert(w =~= z.push(y));
    assert(y == x / d);
    lemma_fundamental_div_mod(x, d);
    lemma_mod_bound(x, d);
}

/// A lookup of the rectified type writes its sum where that is not negative, and else zero.
/// A lookup of another type writes the value of the table for the type: what is tabulated
/// for the sum, or the value at the end of the table that is nearest to it.
pub proof fn law_run_lookup(
    instrs: Seq<Instruction>,
    k: int,
    z0: Seq<int>,
    tables: Seq<(LookupType, LookupTable)>,
)
    requires
        0 <= k < instrs.len(),
        runs(instrs, z0, tables),
        types_once(tables),
        instrs[k] is Lookup,
    ensures
        ({
            let z = run(instrs, k, z0, tables);
            let w = run(instrs, k + 1, z0, tables);
            let u = instrs[k]->input@;
            let tp = instrs[k]->tp;
            let x = sum_to(u.len() as int, |i: int| z[u[i].0 as int] * u[i].1);
            let y = w[z.len() as int];
            &&& w == z.push(y)
            &&& tp is Relu ==> y >= 0 && y >= x && (y == 0 || y == x)
            &&& !(tp is Relu) ==> exists|j: int| 0 <= j < tables.len() && tables[j].0 == tp
            &&& !(tp is Relu) ==> forall|j: int|
                #![trigger tables[j]]
                0 <= j < tables.len() && tables[j].0 == tp ==> {
                    let t = tables[j].1;
                    &&& forall|i: int|
                        0 <= i < t.entries().len() && x == t.least() + i ==> y
                            == #[trigger] t.entries()[i]
                    &&& x < t.least() ==> y == t.entries()[0]
                    &&& x >= t.least() + t.entries().len() ==> y == t.entries().last()
                }
        }),
{
    let z = run(instrs, k, z0, tables);
    let w = run(instrs, k + 1, z0, tables);
    let u = instrs[k]->input@;
    let tp = instrs[k]->tp;
    let x = lin_value(u, z, u.len() as int);
    assert(w =~= z.push(w[z.len() as int]));
    assert(instr_ok(instrs[k], z, tables));
    law_table_found(tables, tp);
    if !(tp is Relu) {
        let i = table_index(tables, tp);
        law_table_value(tables[i].1, x);
        assert(tables[i].0 == tp);
    }
}

/// A matrix product writes, row by row, the sums of the products of the cells of a column of
/// the first block with those of the second: the first matrix lies transposed.
pub proof fn law_run_matrix(
    instrs: Seq<Instruction>,
    k: int,
    z0: Seq<int>,
    tables: Seq<(LookupType, LookupTable)>,
    r: int,
    c: int,
)
    requires
        0 <= k < instrs.len(),
        instrs[k] is MatMult,
        0 <= r < instrs[k]->MatMult_m,
        0 <= c < instrs[k]->k,
    ensures
        ({
            let z = run(instrs, k, z0, tables);
            let rows = instrs[k]->MatMult_m as int;
            let cols = instrs[k]->k as int;
            let s1 = instrs[k]->MatMult_start1 as int;
            let s2 = instrs[k]->MatMult_start2 as int;
            run(instrs, k + 1, z0, tables)[z.len() + r * cols + c] == sum_to(
                instrs[k]->MatMult_n as int,
                |l: int| z[s1 + l * rows + r] * z[s2 + l * cols + c],
            )
        }),
{
    let z = run(instrs, k, z0, tables);
    let rows = instrs[k]->MatMult_m as int;
    let cols = instrs[k]->k as int;
    let s1 = instrs[k]->MatMult_start1 as int;
    let s2 = instrs[k]->MatMult_start2 as int;
    let n = instrs[k]->MatMult_n as int;
    let t = r * cols + c;
    lemma_cell_at(rows, cols, r, c);
    let out = instr_outputs(instrs[k], z, tables);
    assert(out[t] == mat_entry(z, rows, cols, s1, s2, r, c, n));
    lemma_sum_eq(
        n,
        |l: int| mat_term(z, rows, cols, s1, s2, r, c, l),
        |l: int| z[s1 + l * rows + r] * z[s2 + l * cols + c],
    );
}

/// The cell in row `r` and column `c`.
proof fn lemma_cell_at(rows: int, cols: int, r: int, c: int)
    requires
        0 <= r < rows,
        0 <= c < cols,
    ensures
        0 <= r * cols + c < rows * cols,
        (r * cols + c) / cols == r,
        (r * cols + c) % cols == c,
{
    assert(0 <= r * cols && r * cols + cols <= rows * cols) by (nonlinear_arith)
        requires
            0 <= r < rows,
            cols > 0,
    ;
    lemma_fundamental_div_mod_converse(r * cols + c, cols, r, c);
}

/// A sum over a grid, row by row.
pub proof fn lemma_sum_grid(rows: int, cols: int, f: spec_fn(int) -> int)
    requires
        0 <= rows,
        0 <= cols,
    ensures
        sum_to(rows * cols, f) == sum_to(rows, |i: int| sum_to(cols, |j: int| f(i * cols + j))),
    decreases rows,
{
    if rows > 0 {
        lemma_sum_grid(rows - 1, cols, f);
        let n = (rows - 1) * cols;
        assert(n + cols == rows * cols && n >= 0) by (nonlinear_arith)
            requires
                n == (rows - 1) * cols,
                rows > 0,
                cols >= 0,
        ;
        lemma_sum_split(n, cols, f);
        lemma_sum_eq(cols, |i: int| f(n + i), |j: int| f((rows - 1) * cols + j));
    } else {
        assert(0 * cols == 0);
    }
}

/// The term of a cross-correlation for a channel and a place in the kernel: the kernel lies
/// with its last place on the place of the cell, and what it covers outside of the plane
/// counts as zero.
pub open spec fn window_term(
    z: Seq<int>,
    n: int,
    m: int,
    outs: int,
    s1: int,
    s2: int,
    o: int,
    alpha: int,
    beta: int,
    ch: int,
    u: int,
    v: int,
) -> int {
    let i = alpha + u - (m - 1);
    let j = beta + v - (m - 1);
    if 0 <= i < n && 0 <= j < n {
        z[s1 + ch * (n * n) + i * n + j] * z[s2 + (ch * outs + o) * (m * m) + u * m + v]
    } else {
        0
    }
}

/// A cross-correlation writes, plane by plane and row by row, the sums over the channels
/// and the kernel of the cells of the plane times those of the kernel that lies on them.
pub proof fn law_run_window(
    instrs: Seq<Instruction>,
    k: int,
    z0: Seq<int>,
    tables: Seq<(LookupType, LookupTable)>,
    o: int,
    alpha: int,
    beta: int,
)
    requires
        0 <= k < instrs.len(),
        instrs[k] is Conv,
        0 <= o < instrs[k]->out_channels,
        0 <= alpha < instrs[k]->Conv_n + instrs[k]->Conv_m - 1,
        0 <= beta < instrs[k]->Conv_n + instrs[k]->Conv_m - 1,
        instrs[k]->Conv_m > 0,
    ensures
        ({
            let z = run(instrs, k, z0, tables);
            let n = instrs[k]->Conv_n as int;
            let m = instrs[k]->Conv_m as int;
            let ins = instrs[k]->in_channels as int;
            let outs = instrs[k]->out_channels as int;
            let s1 = instrs[k]->Conv_start1 as int;
            let s2 = instrs[k]->Conv_start2 as int;
            let side = n + m - 1;
            run(instrs, k + 1, z0, tables)[z.len() + o * (side * side) + (alpha * side + beta)]
                == sum_to(
                ins,
                |ch: int|
                    sum_to(
                        m,
                        |u: int|
                            sum_to(
                                m,
                                |v: int|
                                    window_term(
                                        z,
                                        n,
                                        m,
                                        outs,
                                        s1,
                                        s2,
                                        o,
                                        alpha,
                                        beta,
                                        ch,
                                        u,
                                        v,
                                    ),
                            ),
                    ),
            )
        }),
{
    let z = run(instrs, k, z0, tables);
    let n = instrs[k]->Conv_n as int;
    let m = instrs[k]->Conv_m as int;
    let ins = instrs[k]->in_channels as int;
    let outs = instrs[k]->out_channels as int;
    let s1 = instrs[k]->Conv_start1 as int;
    let s2 = instrs[k]->Conv_start2 as int;
    let side = n + m - 1;
    let plane = side * side;
    let t = o * plane + (alpha * side + beta);
    lemma_cell_at(side, side, alpha, beta);
    lemma_cell_at(outs, plane, o, alpha * side + beta);
    let up = o * side + alpha;
    assert(t == up * side + beta && 0 <= up) by (nonlinear_arith)
        requires
            t == o * plane + (alpha * side + beta),
            plane == side * side,
            up == o * side + alpha,
            0 <= o,
            0 <= alpha < side,
    ;
    lemma_fundamental_div_mod_converse(t, side, up, beta);
    lemma_fundamental_div_mod_converse(up, side, o, alpha);
    let out = instr_outputs(instrs[k], z, tables);
    let f = |x: int| conv_term(z, n, m, outs, s1, s2, o, alpha, beta, x);
    assert(m * m >= 0) by (nonlinear_arith);
    assert(out[t] == conv_cell(z, n, m, outs, s1, s2, o, alpha, beta, ins * (m * m)));
    lemma_sum_grid(ins, m * m, f);
    let a = |i: int| sum_to(m * m, |j: int| f(i * (m * m) + j));
    let b = |ch: int|
        sum_to(
            m,
            |u: int|
                sum_to(
                    m,
                    |v: int| window_term(z, n, m, outs, s1, s2, o, alpha, beta, ch, u, v),
                ),
        );
    assert forall|ch: int| 0 <= ch < ins implies #[trigger] a(ch) == b(ch) by {
        let g = |j: int| f(ch * (m * m) + j);
        lemma_sum_grid(m, m, g);
        let c = |u: int| sum_to(m, |v: int| g(u * m + v));
        let d = |u: int|
            sum_to(m, |v: int| window_term(z, n, m, outs, s1, s2, o, alpha, beta, ch, u, v));
        assert forall|u: int| 0 <= u < m implies #[trigger] c(u) == d(u) by {
            let x = |v: int| g(u * m + v);
            let y = |v: int| window_term(z, n, m, outs, s1, s2, o, alpha, beta, ch, u, v);
            assert forall|v: int| 0 <= v < m implies #[trigger] x(v) == y(v) by {
                lemma_place_at(m, ch, u, v);
            }
            lemma_sum_eq(m, x, y);
        }
        lemma_sum_eq(m, c, d);
        lemma_sum_eq(m, |i: int| sum_to(m, |j: int| g(i * m + j)), c);
    }
    lemma_sum_eq(ins, a, b);
}

/// The place of a term among those of all the channels.
proof fn lemma_place_at(m: int, ch: int, u: int, v: int)
    requires
        0 <= ch,
        0 <= u < m,
        0 <= v < m,
    ensures
        ({
            let t = ch * (m * m) + (u * m + v);
            &&& t / (m * m) == ch
            &&& (t / m) % m == u
            &&& t % m == v
        }),
{
    let t = ch * (m * m) + (u * m + v);
    lemma_cell_at(m, m, u, v);
    lemma_cell_at(ch + 1, m * m, ch, u * m + v);
    let up = ch * m + u;
    assert(t == up * m + v) by (nonlinear_arith)
        requires
            t == ch * (m * m) + (u * m + v),
            up == ch * m + u,
    ;
    lemma_fundamental_div_mod_converse(t, m, up, v);
    lemma_fundamental_div_mod_converse(up, m, ch, u);
}

/// All the cells that a row reads lie from `least` on and before `out`.
pub open spec fn reads_between(row: Seq<(usize, i64)>, least: int, out: int) -> bool {
    forall|i: int| 0 <= i < row.len() ==> least <= (#[trigger] row[i]).0 < out
}

/// A table has rows with the mark.
pub open spec fn tabulated(table: Seq<(int, int, int)>, tag: int) -> bool {
    exists|r: int| 0 <= r < table.len() && cong((#[trigger] table[r]).2, tag)
}

/// The rows of a table with the mark are a function: rows with the same input have the same
/// output.
pub open spec fn single_valued(table: Seq<(int, int, int)>, tag: int) -> bool {
    forall|r: int, s: int|
        #![trigger table[r], table[s]]
        0 <= r < table.len() && 0 <= s < table.len() && cong(table[r].2, tag) && cong(
            table[s].2,
            tag,
        ) && cong(table[r].0, table[s].0) ==> cong(table[r].1, table[s].1)
}

/// An instruction reads only cells before its output, parameters on the second side only,
/// its dimensions and its divisor are positive, and what it looks up is in the table, under
/// a type for lookups and as a function.
pub open spec fn compilable(
    instr: Instruction,
    out: int,
    weight_len: int,
    table: Seq<(int, int, int)>,
) -> bool {
    match instr {
        Instruction::AddMult { input1, input2 } => {
            &&& reads_between(input1@, weight_len, out)
            &&& reads_between(input2@, 0, out)
        },
        Instruction::Conv { n, m, in_channels, out_channels, start1, start2 } => {
            &&& n > 0 && m > 0 && in_channels > 0 && out_channels > 0
            &&& weight_len <= start1
            &&& start1 + in_channels * (n * n) <= out
            &&& start2 + in_channels * (out_channels * (m * m)) <= out
        },
        Instruction::Lookup { input, tp } => {
            &&& !(tp is Range) && !(tp is Bound)
            &&& reads_between(input@, weight_len, out)
            &&& tabulated(table, tp.tag_of())
            &&& single_valued(table, tp.tag_of())
        },
        Instruction::Div { input1, input2, divisor } => {
            &&& divisor > 0
            &&& reads_between(input1@, weight_len, out)
            &&& reads_between(input2@, 0, out)
            &&& tabulated(table, LookupType::Range(divisor).tag_of())
            &&& tabulated(table, LookupType::Bound(QUOTIENT_BOUND).tag_of())
        },
        Instruction::MatMult { m, n, k, start1, start2 } => {
            &&& n > 0 && m > 0 && k > 0
            &&& weight_len <= start1
            &&& start1 + n * m <= out
            &&& start2 + n * k <= out
        },
    }
}

proof fn lemma_outputs(instr: Instruction)
    ensures
        instr.outputs() >= 0,
{
    match instr {
        Instruction::Conv { n, m, in_channels, out_channels, start1, start2 } => {
            let outs = out_channels as int;
            let side = n + m - 1;
            assert(outs * side * side >= 0) by (nonlinear_arith)
                requires
                    outs >= 0,
            ;
        },
        Instruction::MatMult { m, n, k, start1, start2 } => {
            let a = m as int;
            let b = k as int;
            assert(a * b >= 0) by (nonlinear_arith)
                requires
                    a >= 0,
                    b >= 0,
            ;
        },
        _ => {},
    }
}

proof fn lemma_out_grows(instrs: Seq<Instruction>, start: int, k: int, q: int)
    requires
        0 <= k <= q <= instrs.len(),
    ensures
        out_at(instrs, start, k) <= out_at(instrs, start, q),
    decreases q - k,
{
    if k < q {
        lemma_out_grows(instrs, start, k, q - 1);
        lemma_outputs(instrs[q - 1]);
    }
}

proof fn lemma_row_sound(
    idx: usize,
    row: Seq<(usize, i64)>,
    out: int,
    aux_start: int,
    least: int,
    k: int,
)
    requires
        0 <= k <= row.len(),
    ensures
        row_error(idx, row, out, aux_start, least, k) is None <==> forall|i: int|
            k <= i < row.len() ==> least <= (#[trigger] row[i]).0 < out && row[i].0 < aux_start,
    decreases row.len() - k,
{
    if k < row.len() {
        lemma_row_sound(idx, row, out, aux_start, least, k + 1);
        let e = row_error(idx, row, out, aux_start, least, k);
        if least <= row[k].0 < out && row[k].0 < aux_start {
            assert(e == row_error(idx, row, out, aux_start, least, k + 1));
        }
    }
}

proof fn lemma_instr_sound(
    idx: usize,
    instr: Instruction,
    out: int,
    aux_start: int,
    weight_len: int,
    table: Seq<(int, int, int)>,
)
    requires
        out <= aux_start,
    ensures
        instr_error(idx, instr, out, aux_start, weight_len, table) is None <==> compilable(
            instr,
            out,
            weight_len,
            table,
        ),
{
    match instr {
        Instruction::AddMult { input1, input2 } => {
            lemma_row_sound(idx, input1@, out, aux_start, weight_len, 0);
            lemma_row_sound(idx, input2@, out, aux_start, 0, 0);
        },
        Instruction::Lookup { input, tp } => {
            lemma_row_sound(idx, input@, out, aux_start, weight_len, 0);
            let tag = tp.tag_of();
            if single_valued(table, tag) {
                assert(!crate::compiler::ambiguous(table, tag));
            } else {
                let (r, s) = choose|r: int, s: int|
                    #![trigger table[r], table[s]]
                    0 <= r < table.len() && 0 <= s < table.len() && cong(table[r].2, tag) && cong(
                        table[s].2,
                        tag,
                    ) && cong(table[r].0, table[s].0) && !cong(table[r].1, table[s].1);
                assert(crate::compiler::clash(table, tag, r, s));
            }
        },
        Instruction::Div { input1, input2, divisor } => {
            lemma_row_sound(idx, input1@, out, aux_start, weight_len, 0);
            lemma_row_sound(idx, input2@, out, aux_start, 0, 0);
        },
        _ => {},
    }
}

proof fn lemma_program_sound(
    instrs: Seq<Instruction>,
    k: int,
    start: int,
    aux_start: int,
    weight_len: int,
    table: Seq<(int, int, int)>,
)
    requires
        0 <= k <= instrs.len(),
        out_at(instrs, start, instrs.len() as int) == aux_start,
        forall|j: int|
            0 <= j < instrs.len() ==> compilable(
                #[trigger] instrs[j],
                out_at(instrs, start, j),
                weight_len,
                table,
            ),
    ensures
        program_error(instrs, k, start, aux_start, weight_len, table) is None,
    decreases instrs.len() - k,
{
    if k < instrs.len() {
        lemma_program_sound(instrs, k + 1, start, aux_start, weight_len, table);
        lemma_out_grows(instrs, start, k, instrs.len() as int);
        assert(compilable(instrs[k], out_at(instrs, start, k), weight_len, table));
        lemma_instr_sound(
            k as usize,
            instrs[k],
            out_at(instrs, start, k),
            aux_start,
            weight_len,
            table,
        );
    }
}

/// A program compiles exactly if each instruction reads only cells before its output, and
/// parameters on the second side only, has positive dimensions and divisors and looks up
/// what the table holds, and the outputs end where the advice starts.
pub proof fn law_compiles(
    instrs: Seq<Instruction>,
    weight_len: int,
    input_len: int,
    aux_start: int,
    table: Seq<(int, int, int)>,
)
    ensures
        validity_error(instrs, weight_len, input_len, aux_start, table) is None <==> {
            &&& out_at(instrs, weight_len + input_len, instrs.len() as int) == aux_start
            &&& forall|k: int|
                0 <= k < instrs.len() ==> compilable(
                    #[trigger] instrs[k],
                    out_at(instrs, weight_len + input_len, k),
                    weight_len,
                    table,
                )
        },
{
    let start = weight_len + input_len;
    let q = instrs.len() as int;
    if validity_error(instrs, weight_len, input_len, aux_start, table) is None {
        lemma_no_error(instrs, q, start, aux_start, weight_len, table);
        assert forall|k: int| 0 <= k < instrs.len() implies compilable(
            #[trigger] instrs[k],
            out_at(instrs, start, k),
            weight_len,
            table,
        ) by {
            lemma_no_error(instrs, k, start, aux_start, weight_len, table);
            lemma_out_grows(instrs, start, k, q);
            lemma_instr_sound(
                k as usize,
                instrs[k],
                out_at(instrs, start, k),
                aux_start,
                weight_len,
                table,
            );
        }
    } else if out_at(instrs, start, q) == aux_start && forall|k: int|
        0 <= k < instrs.len() ==> compilable(
            #[trigger] instrs[k],
            out_at(instrs, start, k),
            weight_len,
            table,
        ) {
        lemma_program_sound(instrs, 0, start, aux_start, weight_len, table);
    }
}

/// An instruction reads a cell, on its first side or on any.
pub open spec fn reads_cell(instr: Instruction, first_side: bool, col: int) -> bool {
    match instr {
        Instruction::AddMult { input1, input2 } => {
            ||| exists|i: int| 0 <= i < input1.len() && (#[trigger] input1[i]).0 == col
            ||| !first_side && exists|i: int|
                0 <= i < input2.len() && (#[trigger] input2[i]).0 == col
        },
        Instruction::Conv { n, m, in_channels, out_channels, start1, start2 } => {
            ||| start1 <= col < start1 + in_channels * (n * n)
            ||| !first_side && start2 <= col < start2 + in_channels * (out_channels * (m * m))
        },
        Instruction::Lookup { input, tp } => exists|i: int|
            0 <= i < input.len() && (#[trigger] input[i]).0 == col,
        Instruction::Div { input1, input2, divisor } => {
            ||| exists|i: int| 0 <= i < input1.len() && (#[trigger] input1[i]).0 == col
            ||| !first_side && exists|i: int|
                0 <= i < input2.len() && (#[trigger] input2[i]).0 == col
        },
        Instruction::MatMult { m, n, k, start1, start2 } => {
            ||| start1 <= col < start1 + n * m
            ||| !first_side && start2 <= col < start2 + n * k
        },
    }
}

/// What an error says of a program.
pub open spec fn blamed(
    e: CompileError,
    instrs: Seq<Instruction>,
    start: int,
    aux_start: int,
    weight_len: int,
    table: Seq<(int, int, int)>,
) -> bool {
    match e {
        CompileError::ReadsAdvice { instr, col } => {
            &&& instr < instrs.len()
            &&& reads_cell(instrs[instr as int], false, col as int)
            &&& col >= aux_start
        },
        CompileError::ReadsFutureTrace { instr, col } => {
            &&& instr < instrs.len()
            &&& reads_cell(instrs[instr as int], false, col as int)
            &&& out_at(instrs, start, instr as int) <= col < aux_start
        },
        CompileError::ReadsParameter { instr, col } => {
            &&& instr < instrs.len()
            &&& reads_cell(instrs[instr as int], true, col as int)
            &&& col < weight_len
            &&& col < out_at(instrs, start, instr as int)
        },
        CompileError::TraceLengthMismatch { expected, found } => {
            &&& expected == aux_start
            &&& found == out_at(instrs, start, instrs.len() as int)
            &&& found != expected
        },
        CompileError::NonPositiveDivisor { instr, divisor } => {
            &&& instr < instrs.len()
            &&& instrs[instr as int] is Div
            &&& instrs[instr as int]->divisor == divisor
            &&& divisor <= 0
        },
        CompileError::ReservedLookupType { instr } => {
            &&& instr < instrs.len()
            &&& instrs[instr as int] is Lookup
            &&& instrs[instr as int]->tp is Range || instrs[instr as int]->tp is Bound
        },
        CompileError::MissingLookupRows { instr } => {
            &&& instr < instrs.len()
            &&& match instrs[instr as int] {
                Instruction::Lookup { input, tp } => !tabulated(table, tp.tag_of()),
                Instruction::Div { input1, input2, divisor } => {
                    ||| !tabulated(table, LookupType::Range(divisor).tag_of())
                    ||| !tabulated(table, LookupType::Bound(QUOTIENT_BOUND).tag_of())
                },
                _ => false,
            }
        },
        CompileError::AmbiguousTable { instr } => {
            &&& instr < instrs.len()
            &&& instrs[instr as int] is Lookup
            &&& tabulated(table, instrs[instr as int]->tp.tag_of())
            &&& !single_valued(table, instrs[instr as int]->tp.tag_of())
        },
        CompileError::EmptyDimension { instr } => {
            &&& instr < instrs.len()
            &&& match instrs[instr as int] {
                Instruction::Conv { n, m, in_channels, out_channels, start1, start2 } => n == 0
                    || m == 0 || in_channels == 0 || out_channels == 0,
                Instruction::MatMult { m, n, k, start1, start2 } => n == 0 || m == 0 || k == 0,
                _ => false,
            }
        },
    }
}

proof fn lemma_row_blamed(
    idx: usize,
    row: Seq<(usize, i64)>,
    out: int,
    aux_start: int,
    least: int,
    k: int,
)
    requires
        0 <= k <= row.len(),
    ensures
        row_error(idx, row, out, aux_start, least, k) matches Some(e) ==> exists|i: int| {
            let col = (#[trigger] row[i]).0;
            &&& k <= i < row.len()
            &&& col >= aux_start ==> e == (CompileError::ReadsAdvice { instr: idx, col })
            &&& col < aux_start && col >= out ==> e == (CompileError::ReadsFutureTrace {
                instr: idx,
                col,
            })
            &&& col < aux_start && col < out ==> col < least && e == (
            CompileError::ReadsParameter { instr: idx, col })
        },
    decreases row.len() - k,
{
    if k < row.len() {
        lemma_row_blamed(idx, row, out, aux_start, least, k + 1);
        let col = row[k].0;
    }
}

#[verifier::rlimit(40)]
proof fn lemma_instr_blamed(
    instrs: Seq<Instruction>,
    k: int,
    start: int,
    aux_start: int,
    weight_len: int,
    table: Seq<(int, int, int)>,
)
    requires
        0 <= k < instrs.len() <= usize::MAX,
        weight_len >= 0,
        operands_fit(instrs[k]),
    ensures
        instr_error(
            k as usize,
            instrs[k],
            out_at(instrs, start, k),
            aux_start,
            weight_len,
            table,
        ) matches Some(e) ==> blamed(e, instrs, start, aux_start, weight_len, table),
{
    let idx = k as usize;
    let out = out_at(instrs, start, k);
    match instrs[k] {
        Instruction::AddMult { input1, input2 } => {
            lemma_row_blamed(idx, input1@, out, aux_start, weight_len, 0);
            lemma_row_blamed(idx, input2@, out, aux_start, 0, 0);
        },
        Instruction::Lookup { input, tp } => {
            lemma_row_blamed(idx, input@, out, aux_start, weight_len, 0);
            let tag = tp.tag_of();
            if single_valued(table, tag) {
                assert(!crate::compiler::ambiguous(table, tag));
            }
        },
        Instruction::Div { input1, input2, divisor } => {
            lemma_row_blamed(idx, input1@, out, aux_start, weight_len, 0);
            lemma_row_blamed(idx, input2@, out, aux_start, 0, 0);
        },
        Instruction::Conv { n, m, in_channels, out_channels, start1, start2 } => {
            if n > 0 && m > 0 && in_channels > 0 && out_channels > 0 {
                let a = in_channels as int;
                let b = out_channels as int;
                let c = n as int;
                let d = m as int;
                assert(a * (c * c) > 0 && a * (b * (d * d)) > 0) by (nonlinear_arith)
                    requires
                        a > 0,
                        b > 0,
                        c > 0,
                        d > 0,
                ;
            }
        },
        Instruction::MatMult { m, n, k: cols, start1, start2 } => {
            if n > 0 && m > 0 && cols > 0 {
                let a = n as int;
                let b = m as int;
                let c = cols as int;
                assert(a * b > 0 && a * c > 0) by (nonlinear_arith)
                    requires
                        a > 0,
                        b > 0,
                        c > 0,
                ;
            }
        },
    }
}

proof fn lemma_program_blamed(
    instrs: Seq<Instruction>,
    k: int,
    start: int,
    aux_start: int,
    weight_len: int,
    table: Seq<(int, int, int)>,
)
    requires
        0 <= k <= instrs.len() <= usize::MAX,
        0 <= start,
        0 <= aux_start <= usize::MAX,
        weight_len >= 0,
        program_fits(instrs, start, aux_start),
    ensures
        program_error(instrs, k, start, aux_start, weight_len, table) matches Some(e) ==> blamed(
            e,
            instrs,
            start,
            aux_start,
            weight_len,
            table,
        ),
    decreases instrs.len() - k,
{
    if k < instrs.len() {
        lemma_program_blamed(instrs, k + 1, start, aux_start, weight_len, table);
        assert(operands_fit(instrs[k]));
        lemma_instr_blamed(instrs, k, start, aux_start, weight_len, table);
    } else {
        lemma_out_grows(instrs, start, 0, k);
        assert(out_at(instrs, start, k) <= usize::MAX);
    }
}

/// What a refused program is refused for is so: the cell that is named is read by the
/// instruction that is named and lies where it may not, or the dimension, the divisor, the
/// type, the rows or the length are as the error says.
pub proof fn law_refused(
    instrs: Seq<Instruction>,
    weight_len: int,
    input_len: int,
    aux_start: int,
    table: Seq<(int, int, int)>,
)
    requires
        instrs.len() <= usize::MAX,
        0 <= weight_len,
        0 <= input_len,
        0 <= aux_start <= usize::MAX,
        program_fits(instrs, weight_len + input_len, aux_start),
    ensures
        validity_error(instrs, weight_len, input_len, aux_start, table) matches Some(e) ==> blamed(
            e,
            instrs,
            weight_len + input_len,
            aux_start,
            weight_len,
            table,
        ),
{
    lemma_program_blamed(instrs, 0, weight_len + input_len, aux_start, weight_len, table);
}

/// The instruction that an error names.
pub open spec fn culprit(e: CompileError) -> Option<int> {
    match e {
        CompileError::ReadsAdvice { instr, col } => Some(instr as int),
        CompileError::ReadsFutureTrace { instr, col } => Some(instr as int),
        CompileError::ReadsParameter { instr, col } => Some(instr as int),
        CompileError::TraceLengthMismatch { expected, found } => None,
        CompileError::NonPositiveDivisor { instr, divisor } => Some(instr as int),
        CompileError::ReservedLookupType { instr } => Some(instr as int),
        CompileError::MissingLookupRows { instr } => Some(instr as int),
        CompileError::AmbiguousTable { instr } => Some(instr as int),
        CompileError::EmptyDimension { instr } => Some(instr as int),
    }
}

proof fn lemma_row_culprit(
    idx: usize,
    row: Seq<(usize, i64)>,
    out: int,
    aux_start: int,
    least: int,
    k: int,
)
    requires
        0 <= k,
    ensures
        row_error(idx, row, out, aux_start, least, k) matches Some(e) ==> culprit(e) == Some(
            idx as int,
        ),
    decreases row.len() - k,
{
    if k < row.len() {
        lemma_row_culprit(idx, row, out, aux_start, least, k + 1);
    }
}

proof fn lemma_instr_culprit(
    idx: usize,
    instr: Instruction,
    out: int,
    aux_start: int,
    weight_len: int,
    table: Seq<(int, int, int)>,
)
    ensures
        instr_error(idx, instr, out, aux_start, weight_len, table) matches Some(e) ==> culprit(e)
            == Some(idx as int),
{
    match instr {
        Instruction::AddMult { input1, input2 } => {
            lemma_row_culprit(idx, input1@, out, aux_start, weight_len, 0);
            lemma_row_culprit(idx, input2@, out, aux_start, 0, 0);
        },
        Instruction::Lookup { input, tp } => {
            lemma_row_culprit(idx, input@, out, aux_start, weight_len, 0);
        },
        Instruction::Div { input1, input2, divisor } => {
            lemma_row_culprit(idx, input1@, out, aux_start, weight_len, 0);
            lemma_row_culprit(idx, input2@, out, aux_start, 0, 0);
        },
        _ => {},
    }
}

proof fn lemma_first(
    instrs: Seq<Instruction>,
    k: int,
    start: int,
    aux_start: int,
    weight_len: int,
    table: Seq<(int, int, int)>,
)
    requires
        0 <= k <= instrs.len() <= usize::MAX,
    ensures
        program_error(instrs, k, start, aux_start, weight_len, table) matches Some(e) ==> {
            let last = if culprit(e) is Some {
                culprit(e)->0
            } else {
                instrs.len() as int
            };
            &&& k <= last <= instrs.len()
            &&& culprit(e) is Some ==> last < instrs.len() && instr_error(
                last as usize,
                instrs[last],
                out_at(instrs, start, last),
                aux_start,
                weight_len,
                table,
            ) is Some
            &&& forall|j: int|
                k <= j < last ==> instr_error(
                    j as usize,
                    #[trigger] instrs[j],
                    out_at(instrs, start, j),
                    aux_start,
                    weight_len,
                    table,
                ) is None
        },
    decreases instrs.len() - k,
{
    if k < instrs.len() {
        lemma_first(instrs, k + 1, start, aux_start, weight_len, table);
        lemma_instr_culprit(
            k as usize,
            instrs[k],
            out_at(instrs, start, k),
            aux_start,
            weight_len,
            table,
        );
    }
}

/// A refused program is refused for the first of its instructions that is at fault, or for
/// its length if none is; where the outputs do not reach past the start of the advice.
pub proof fn law_refused_first(
    instrs: Seq<Instruction>,
    weight_len: int,
    input_len: int,
    aux_start: int,
    table: Seq<(int, int, int)>,
)
    requires
        instrs.len() <= usize::MAX,
        out_at(instrs, weight_len + input_len, instrs.len() as int) <= aux_start,
    ensures
        validity_error(instrs, weight_len, input_len, aux_start, table) matches Some(e) ==> {
            let start = weight_len + input_len;
            let last = if culprit(e) is Some {
                culprit(e)->0
            } else {
                instrs.len() as int
            };
            &&& 0 <= last <= instrs.len()
            &&& culprit(e) is Some ==> last < instrs.len() && !compilable(
                instrs[last],
                out_at(instrs, start, last),
                weight_len,
                table,
            )
            &&& forall|j: int|
                0 <= j < last ==> compilable(
                    #[trigger] instrs[j],
                    out_at(instrs, start, j),
                    weight_len,
                    table,
                )
        },
{
    let start = weight_len + input_len;
    let q = instrs.len() as int;
    lemma_first(instrs, 0, start, aux_start, weight_len, table);
    assert forall|j: int| 0 <= j < q implies compilable(
        #[trigger] instrs[j],
        out_at(instrs, start, j),
        weight_len,
        table,
    ) == (instr_error(
        j as usize,
        instrs[j],
        out_at(instrs, start, j),
        aux_start,
        weight_len,
        table,
    ) is None) by {
        lemma_out_grows(instrs, start, j, q);
        lemma_instr_sound(
            j as usize,
            instrs[j],
            out_at(instrs, start, j),
            aux_start,
            weight_len,
            table,
        );
    }
}

/// Lookups of different types have rows with different marks: the marks of divisors are
/// negative, and those of bounds are greater than those of the other types.
pub proof fn law_marks_differ(tp: LookupType, other: LookupType)
    requires
        tp is Range ==> tp->Range_0 > 0,
        other is Range ==> other->Range_0 > 0,
        tp is Bound ==> tp->Bound_0 >= 0,
        other is Bound ==> other->Bound_0 >= 0,
    ensures
        tp.tag_of() == other.tag_of() ==> tp == other,
        tp is Range <==> tp.tag_of() < 0,
{
}

} // verus!
