//! A circuit that is the compilation of a program fixes what the program writes.
use vstd::prelude::*;
use vstd::arithmetic::power::*;
use crate::circuit::{
    CircuitView, Entry, LookupType, QUOTIENT_BOUND, matrix_in_range, row_in_range, row_value,
    satisfied, table_has,
};
use crate::compiler::{
    ambiguous, cell, cells, circuit_of, clash, graded, kernel_row, left_row, lemma_no_error,
    plane_row, validity_error,
};
use crate::execution::{lemma_cell, lemma_graded};
use crate::field::{cong, lemma_cong_ops};
use crate::instruction::Instruction;
use crate::interpolation::{far_apart, law_roots, lemma_sum_cong, peval};
use crate::registration::agreement::law_rows_agree;
use crate::registration::compiled::law_compiled;
use crate::registration::encode::{
    DeltaView, EncodingView, NUM_OPERANDS, Opcode, convolution_violation, counters_at, delta_at,
    encoding_of, instr_operands, instruction_violation, instructions_violation,
    law_deltas_of_instruction, lemma_counted, operands_of, product_violation, read_violation,
    rows_agree, violation,
};
use crate::sums::{lemma_sum_eq, lemma_sum_scale, lemma_sum_split, lemma_sum_sub, sum_to};

verus! {

/// Two vectors have the same field elements in their first `n` cells.
pub open spec fn same_cells(y: Seq<int>, z: Seq<int>, n: int) -> bool {
    forall|i: int| 0 <= i < n ==> cong(#[trigger] y[i], z[i])
}

/// The value of a polynomial is the sum of its coefficients times the powers.
proof fn lemma_powers(a: Seq<int>, x: int)
    ensures
        peval(a, x) == sum_to(a.len() as int, |j: int| a[j] * pow(x, j as nat)),
    decreases a.len(),
{
    if a.len() > 0 {
        let n = a.len() as int;
        let b = a.drop_first();
        lemma_powers(b, x);
        let f = |j: int| a[j] * pow(x, j as nat);
        let g = |j: int| b[j] * pow(x, j as nat);
        lemma_sum_split(1, n - 1, f);
        reveal_with_fuel(sum_to, 2);
        lemma_pow0(x);
        assert(a[0] * 1 == a[0]);
        let h = |i: int| f(1 + i);
        let k = |i: int| x * g(i);
        assert forall|i: int| 0 <= i < n - 1 implies #[trigger] h(i) == k(i) by {
            lemma_pow_adds(x, 1, i as nat);
            lemma_pow1(x);
            let y = a[1 + i];
            let p = pow(x, i as nat);
            assert(y * (x * p) == x * (y * p)) by (nonlinear_arith);
        }
        lemma_sum_eq(n - 1, h, k);
        lemma_sum_scale(n - 1, x, g);
    }
}

/// The value of a row depends on the field elements in the cells that it reads.
proof fn lemma_row_same(row: Seq<Entry>, y: Seq<int>, z: Seq<int>, gamma: int)
    requires
        forall|k: int|
            0 <= k < row.len() ==> cong(y[(#[trigger] row[k]).col], z[row[k].col]),
    ensures
        cong(row_value(row, y, gamma), row_value(row, z, gamma)),
{
    let f = |k: int| y[row[k].col] * row[k].val * pow(gamma, row[k].pow as nat);
    let g = |k: int| z[row[k].col] * row[k].val * pow(gamma, row[k].pow as nat);
    assert forall|k: int| 0 <= k < row.len() implies cong(#[trigger] f(k), g(k)) by {
        let a = y[row[k].col];
        let b = z[row[k].col];
        let v = row[k].val;
        let p = pow(gamma, row[k].pow as nat);
        lemma_cong_ops(a, b, v, v);
        lemma_cong_ops(a * v, b * v, p, p);
    }
    lemma_sum_cong(row.len() as int, f, g);
}

/// Two vectors that satisfy a circuit and agree on two sides of a constraint agree on the
/// third.
proof fn lemma_third(c: CircuitView, y: Seq<int>, z: Seq<int>, gamma: int, r: int)
    requires
        satisfied(c, y, gamma),
        satisfied(c, z, gamma),
        0 <= r < c.a.len(),
        cong(row_value(c.a[r], y, gamma), row_value(c.a[r], z, gamma)),
        cong(row_value(c.b[r], y, gamma), row_value(c.b[r], z, gamma)),
    ensures
        cong(row_value(c.c[r], y, gamma), row_value(c.c[r], z, gamma)),
{
    lemma_cong_ops(
        row_value(c.a[r], y, gamma),
        row_value(c.a[r], z, gamma),
        row_value(c.b[r], y, gamma),
        row_value(c.b[r], z, gamma),
    );
}

/// Two quotients and remainders are of the same number.
pub open spec fn same_dividend(q1: int, r1: int, q2: int, r2: int, divisor: int) -> bool {
    cong(q1 * divisor + r1, q2 * divisor + r2)
}

/// The rows of a table for the remainders and the quotients of a division leave no choice
/// of the quotient.
pub open spec fn quotients_fixed(t: Seq<(int, int, int)>, divisor: int) -> bool {
    let bound = LookupType::Bound(QUOTIENT_BOUND).tag_of();
    forall|q1: int, r1: int, q2: int, r2: int|
        table_has(t, 0, r1, -divisor) && table_has(t, 0, r2, -divisor) && table_has(t, 0, q1, bound)
            && table_has(t, 0, q2, bound) && #[trigger] same_dividend(q1, r1, q2, r2, divisor)
            ==> cong(q1, q2)
}

/// An instruction leaves no choice if there are as many challenges as a product or a
/// convolution writes cells, what is looked up is a function on the table, and the table
/// leaves no choice of the quotients.
pub open spec fn fixes(e: EncodingView, i: int, t: Seq<(int, int, int)>, g: Seq<int>) -> bool {
    let o = operands_of(e, i);
    match e.opcode[i] {
        Opcode::AddMult => true,
        Opcode::Lookup => !ambiguous(t, o[0]),
        Opcode::Div => quotients_fixed(t, o[0]),
        Opcode::MatMult => delta_at(e, i).out <= g.len(),
        Opcode::Conv => delta_at(e, i).out <= g.len(),
    }
}

/// The operands of products and convolutions are sizes and places.
pub open spec fn sizes_ok(e: EncodingView) -> bool {
    forall|i: int, s: int|
        0 <= i < e.opcode.len() && (e.opcode[i] is MatMult || e.opcode[i] is Conv) && 0 <= s
            < NUM_OPERANDS ==> 0 <= #[trigger] operands_of(e, i)[s]
}

/// Two traces, each with advice for several challenges, and a circuit that is said to be
/// the compilation of a program.
pub ghost struct Rivals {
    pub enc: EncodingView,
    pub circuit: CircuitView,
    pub gammas: Seq<int>,
    pub y: Seq<int>,
    pub z: Seq<int>,
    pub y_advice: Seq<Seq<int>>,
    pub z_advice: Seq<Seq<int>>,
}

impl Rivals {
    /// The traces start with the same parameters and the same input, and both satisfy the
    /// circuit for all the challenges.
    pub open spec fn accepted(self) -> bool {
        &&& 0 <= self.enc.weight_len
        &&& 0 <= self.enc.input_len
        &&& self.y.len() == self.enc.aux_start
        &&& self.z.len() == self.enc.aux_start
        &&& same_cells(self.y, self.z, self.enc.weight_len + self.enc.input_len)
        &&& self.gammas.len() > 0
        &&& far_apart(self.gammas)
        &&& forall|k: int|
            0 <= k < self.gammas.len() ==> satisfied(
                self.circuit,
                self.y + #[trigger] self.y_advice[k],
                self.gammas[k],
            )
        &&& forall|k: int|
            0 <= k < self.gammas.len() ==> satisfied(
                self.circuit,
                self.z + #[trigger] self.z_advice[k],
                self.gammas[k],
            )
    }

    /// The circuit breaks no rule.
    pub open spec fn checked(self) -> bool {
        &&& violation(self.enc, self.circuit) is None
        &&& sizes_ok(self.enc)
    }

    /// The value of a row is the same for both traces.
    spec fn settled(self, row: Seq<Entry>, k: int) -> bool {
        cong(
            row_value(row, self.y + self.y_advice[k], self.gammas[k]),
            row_value(row, self.z + self.z_advice[k], self.gammas[k]),
        )
    }
}

/// Rows of cells before a place have the same values.
proof fn lemma_before_same(w: Rivals, k: int, row: Seq<Entry>, out: int)
    requires
        w.accepted(),
        0 <= k < w.gammas.len(),
        out <= w.enc.aux_start,
        same_cells(w.y, w.z, out),
        forall|j: int| 0 <= j < row.len() ==> 0 <= (#[trigger] row[j]).col < out,
    ensures
        w.settled(row, k),
{
    assert forall|j: int| 0 <= j < row.len() implies cong(
        (w.y + w.y_advice[k])[(#[trigger] row[j]).col],
        (w.z + w.z_advice[k])[row[j].col],
    ) by {
        let col = row[j].col;
        assert(cong(w.y[col], w.z[col]));
    }
    lemma_row_same(row, w.y + w.y_advice[k], w.z + w.z_advice[k], w.gammas[k]);
}

/// A row that agrees with another has the same value for both traces if the other has.
proof fn lemma_agree_same(w: Rivals, k: int, row: Seq<Entry>, want: Seq<Entry>)
    requires
        rows_agree(row, want),
    ensures
        w.settled(row, k) <==> w.settled(want, k),
{
    law_rows_agree(row, want, w.y + w.y_advice[k], w.gammas[k]);
    law_rows_agree(row, want, w.z + w.z_advice[k], w.gammas[k]);
}

/// A row with nothing wrong with its reads reads below the limit.
proof fn lemma_reads(i: int, rule: Seq<char>, row: Seq<Entry>, limit: int, k: int)
    requires
        0 <= k,
        read_violation(i, rule, row, limit, k) is None,
    ensures
        forall|j: int| k <= j < row.len() ==> (#[trigger] row[j]).col < limit,
    decreases row.len() - k,
{
    if k < row.len() {
        lemma_reads(i, rule, row, limit, k + 1);
    }
}

/// What a row with nothing wrong with its reads reads is the same.
proof fn lemma_plain_same(
    w: Rivals,
    i: int,
    rule: Seq<char>,
    rows: Seq<Seq<Entry>>,
    r: int,
    out: int,
)
    requires
        w.accepted(),
        out <= w.enc.aux_start,
        same_cells(w.y, w.z, out),
        0 <= r < rows.len(),
        matrix_in_range(rows, (w.y + w.y_advice[0]).len() as int),
        read_violation(i, rule, rows[r], out, 0) is None,
    ensures
        w.settled(rows[r], 0),
{
    lemma_reads(i, rule, rows[r], out, 0);
    assert(row_in_range(rows[r], (w.y + w.y_advice[0]).len() as int));
    lemma_before_same(w, 0, rows[r], out);
}

/// Nothing is wrong with an instruction.
proof fn lemma_instruction(e: EncodingView, c: CircuitView, k: int, i: int)
    requires
        0 <= k <= i < e.opcode.len(),
        instructions_violation(e, c, k) is None,
    ensures
        instruction_violation(e, c, i) is None,
    decreases i - k,
{
    if k < i {
        lemma_instruction(e, c, k + 1, i);
    }
}

/// What an instruction takes is no less than zero.
proof fn lemma_delta(e: EncodingView, i: int)
    requires
        sizes_ok(e),
        0 <= i < e.opcode.len(),
    ensures
        delta_at(e, i).out >= 0,
        delta_at(e, i).aux >= 0,
        delta_at(e, i).cr >= 0,
        delta_at(e, i).lr >= 0,
{
    let o = operands_of(e, i);
    match e.opcode[i] {
        Opcode::MatMult => {
            assert(o[0] >= 0 && o[1] >= 0 && o[2] >= 0);
            assert(o[0] * o[2] >= 0) by (nonlinear_arith)
                requires
                    o[0] >= 0,
                    o[2] >= 0,
            ;
        },
        Opcode::Conv => {
            assert(o[0] >= 0 && o[1] >= 0);
            let side = o[2] + o[3] - 1;
            assert(o[1] * side * side >= 0) by (nonlinear_arith)
                requires
                    o[1] >= 0,
            ;
        },
        _ => {},
    }
}

proof fn lemma_counters(e: EncodingView, i: int, k: int)
    requires
        sizes_ok(e),
        0 <= i <= k <= e.opcode.len(),
    ensures
        counters_at(e, i).out <= counters_at(e, k).out,
        counters_at(e, i).aux <= counters_at(e, k).aux,
        counters_at(e, i).cr <= counters_at(e, k).cr,
        counters_at(e, i).lr <= counters_at(e, k).lr,
    decreases k,
{
    if i < k {
        lemma_counters(e, i, k - 1);
        lemma_delta(e, k - 1);
    }
}

/// Where the rows of an instruction stand, and how far its cells go.
proof fn lemma_places(w: Rivals, i: int)
    requires
        w.accepted(),
        w.checked(),
        0 <= i < w.enc.opcode.len(),
    ensures
        ({
            let at = counters_at(w.enc, i);
            let d = delta_at(w.enc, i);
            let e = w.enc;
            &&& e.out[i] == at.out && e.aux[i] == at.aux && e.cr[i] == at.cr && e.lr[i] == at.lr
            &&& 0 <= at.out && 0 <= at.cr && 0 <= at.lr
            &&& d.out >= 0
            &&& at.out + d.out <= e.aux_start <= at.aux
            &&& at.cr + d.cr <= w.circuit.a.len()
            &&& at.lr + d.lr <= w.circuit.d.len()
            &&& instruction_violation(e, w.circuit, i) is None
        }),
{
    let e = w.enc;
    let q = e.opcode.len() as int;
    lemma_counted(e);
    assert((DeltaView { out: e.out[i], aux: e.aux[i], cr: e.cr[i], lr: e.lr[i] }) == counters_at(
        e,
        i,
    ));
    lemma_counters(e, 0, i);
    lemma_counters(e, i + 1, q);
    lemma_delta(e, i);
    lemma_instruction(e, w.circuit, 0, i);
}

/// A product of linear combinations leaves no choice.
proof fn lemma_add_mult_fixed(w: Rivals, i: int)
    requires
        w.accepted(),
        w.checked(),
        0 <= i < w.enc.opcode.len(),
        w.enc.opcode[i] is AddMult,
        same_cells(w.y, w.z, counters_at(w.enc, i).out),
    ensures
        ({
            let out = counters_at(w.enc, i).out;
            cong(w.y[out], w.z[out])
        }),
{
    let c = w.circuit;
    let at = counters_at(w.enc, i);
    lemma_places(w, i);
    let y = w.y + w.y_advice[0];
    let z = w.z + w.z_advice[0];
    let gamma = w.gammas[0];
    assert(satisfied(c, w.y + w.y_advice[0], gamma));
    assert(satisfied(c, w.z + w.z_advice[0], gamma));
    lemma_plain_same(w, i, "AddMult reads"@, c.a, at.cr, at.out);
    lemma_plain_same(w, i, "AddMult reads"@, c.b, at.cr, at.out);
    lemma_third(c, y, z, gamma, at.cr);
    lemma_agree_same(w, 0, c.c[at.cr], seq![cell(at.out)]);
    lemma_cell(at.out, y, gamma);
    lemma_cell(at.out, z, gamma);
}

/// What is in a table under a mark is there under one that is congruent, and for elements
/// that are.
proof fn lemma_table_same(
    t: Seq<(int, int, int)>,
    x: int,
    y: int,
    tag: int,
    x1: int,
    y1: int,
    tag1: int,
)
    requires
        table_has(t, x, y, tag),
        cong(x, x1),
        cong(y, y1),
        cong(tag, tag1),
    ensures
        table_has(t, x1, y1, tag1),
{
    let r = choose|r: int|
        0 <= r < t.len() && cong((#[trigger] t[r]).0, x) && cong(t[r].1, y) && cong(t[r].2, tag);
    assert(cong(t[r].0, x1) && cong(t[r].1, y1) && cong(t[r].2, tag1));
}

/// A lookup leaves no choice.
proof fn lemma_lookup_fixed(w: Rivals, i: int)
    requires
        w.accepted(),
        w.checked(),
        0 <= i < w.enc.opcode.len(),
        w.enc.opcode[i] is Lookup,
        fixes(w.enc, i, w.circuit.table, w.gammas),
        same_cells(w.y, w.z, counters_at(w.enc, i).out),
    ensures
        ({
            let out = counters_at(w.enc, i).out;
            cong(w.y[out], w.z[out])
        }),
{
    let c = w.circuit;
    let at = counters_at(w.enc, i);
    let tag = operands_of(w.enc, i)[0];
    let t = c.table;
    lemma_places(w, i);
    let y = w.y + w.y_advice[0];
    let z = w.z + w.z_advice[0];
    let gamma = w.gammas[0];
    assert(satisfied(c, w.y + w.y_advice[0], gamma));
    assert(satisfied(c, w.z + w.z_advice[0], gamma));
    lemma_plain_same(w, i, "Lookup reads"@, c.d, at.lr, at.out);
    let d1 = row_value(c.d[at.lr], y, gamma);
    let d2 = row_value(c.d[at.lr], z, gamma);
    lemma_row_is_cell(c.e[at.lr], at.out, y, gamma);
    lemma_row_is_cell(c.e[at.lr], at.out, z, gamma);
    lemma_table_same(t, d1, row_value(c.e[at.lr], y, gamma), c.tp[at.lr], d1, y[at.out], tag);
    lemma_table_same(t, d2, row_value(c.e[at.lr], z, gamma), c.tp[at.lr], d1, z[at.out], tag);
    let r = choose|r: int|
        0 <= r < t.len() && cong((#[trigger] t[r]).0, d1) && cong(t[r].1, y[at.out]) && cong(
            t[r].2,
            tag,
        );
    let s = choose|r: int|
        0 <= r < t.len() && cong((#[trigger] t[r]).0, d1) && cong(t[r].1, z[at.out]) && cong(
            t[r].2,
            tag,
        );
    assert(!ambiguous(t, tag));
    assert(!clash(t, tag, r, s));
}

/// The value of a row that agrees with a single cell.
proof fn lemma_row_is_cell(row: Seq<Entry>, col: int, z: Seq<int>, gamma: int)
    requires
        rows_agree(row, seq![cell(col)]),
    ensures
        cong(row_value(row, z, gamma), z[col]),
{
    law_rows_agree(row, seq![cell(col)], z, gamma);
    lemma_cell(col, z, gamma);
}

/// The value of a row that agrees with the empty one.
proof fn lemma_row_is_zero(row: Seq<Entry>, z: Seq<int>, gamma: int)
    requires
        rows_agree(row, Seq::empty()),
    ensures
        cong(row_value(row, z, gamma), 0),
{
    law_rows_agree(row, Seq::empty(), z, gamma);
    assert(row_value(Seq::empty(), z, gamma) == 0);
}

/// What a vector that satisfies a circuit has at the rows of a division.
proof fn lemma_division_row(w: Rivals, i: int, z: Seq<int>, gamma: int)
    requires
        w.accepted(),
        w.checked(),
        0 <= i < w.enc.opcode.len(),
        w.enc.opcode[i] is Div,
        satisfied(w.circuit, z, gamma),
    ensures
        ({
            let c = w.circuit;
            let at = counters_at(w.enc, i);
            let d = operands_of(w.enc, i)[0];
            &&& cong(row_value(c.c[at.cr], z, gamma), z[at.out] * d + z[at.aux])
            &&& table_has(c.table, 0, z[at.aux], -d)
            &&& table_has(c.table, 0, z[at.out], LookupType::Bound(QUOTIENT_BOUND).tag_of())
        }),
{
    let c = w.circuit;
    let at = counters_at(w.enc, i);
    let d = operands_of(w.enc, i)[0];
    lemma_places(w, i);
    let want = seq![Entry { col: at.out, val: d, pow: 0 }, cell(at.aux)];
    law_rows_agree(c.c[at.cr], want, z, gamma);
    lemma_two_cells(at.out, d, at.aux, z, gamma);
    let lr = at.lr;
    lemma_row_is_zero(c.d[lr], z, gamma);
    lemma_row_is_zero(c.d[lr + 1], z, gamma);
    lemma_row_is_cell(c.e[lr], at.aux, z, gamma);
    lemma_row_is_cell(c.e[lr + 1], at.out, z, gamma);
    lemma_table_same(
        c.table,
        row_value(c.d[lr], z, gamma),
        row_value(c.e[lr], z, gamma),
        c.tp[lr],
        0,
        z[at.aux],
        -d,
    );
    lemma_table_same(
        c.table,
        row_value(c.d[lr + 1], z, gamma),
        row_value(c.e[lr + 1], z, gamma),
        c.tp[lr + 1],
        0,
        z[at.out],
        LookupType::Bound(QUOTIENT_BOUND).tag_of(),
    );
}

/// A division leaves no choice, if the table leaves none.
proof fn lemma_div_fixed(w: Rivals, i: int)
    requires
        w.accepted(),
        w.checked(),
        0 <= i < w.enc.opcode.len(),
        w.enc.opcode[i] is Div,
        fixes(w.enc, i, w.circuit.table, w.gammas),
        same_cells(w.y, w.z, counters_at(w.enc, i).out),
    ensures
        ({
            let out = counters_at(w.enc, i).out;
            cong(w.y[out], w.z[out])
        }),
{
    let c = w.circuit;
    let at = counters_at(w.enc, i);
    let d = operands_of(w.enc, i)[0];
    lemma_places(w, i);
    let y = w.y + w.y_advice[0];
    let z = w.z + w.z_advice[0];
    let gamma = w.gammas[0];
    assert(satisfied(c, w.y + w.y_advice[0], gamma));
    assert(satisfied(c, w.z + w.z_advice[0], gamma));
    lemma_plain_same(w, i, "Div reads"@, c.a, at.cr, at.out);
    lemma_plain_same(w, i, "Div reads"@, c.b, at.cr, at.out);
    lemma_third(c, y, z, gamma, at.cr);
    lemma_division_row(w, i, y, gamma);
    lemma_division_row(w, i, z, gamma);
    assert(same_dividend(y[at.out], y[at.aux], z[at.out], z[at.aux], d));
}

proof fn lemma_two_cells(out: int, d: int, aux: int, z: Seq<int>, gamma: int)
    ensures
        row_value(seq![Entry { col: out, val: d, pow: 0 }, cell(aux)], z, gamma) == z[out] * d
            + z[aux],
{
    let row = seq![Entry { col: out, val: d, pow: 0 }, cell(aux)];
    let f = |k: int| z[row[k].col] * row[k].val * pow(gamma, row[k].pow as nat);
    reveal_with_fuel(sum_to, 3);
    lemma_pow0(gamma);
    let x = z[out] * d;
    let u = z[aux];
    assert(x * 1 == x);
    assert(u * 1 * 1 == u) by (nonlinear_arith);
    assert(f(0) == x);
    assert(f(1) == u);
}

/// Cells that agree in as many randomized sums as there are cells agree.
proof fn lemma_sums_fixed(w: Rivals, out: int, n: int)
    requires
        w.accepted(),
        0 <= n <= w.gammas.len(),
        0 <= out,
        out + n <= w.enc.aux_start,
        forall|k: int| 0 <= k < w.gammas.len() ==> #[trigger] w.settled(graded(out, n), k),
    ensures
        forall|j: int| out <= j < out + n ==> cong(#[trigger] w.y[j], w.z[j]),
{
    let a = Seq::new(n as nat, |j: int| w.y[out + j] - w.z[out + j]);
    assert forall|k: int| 0 <= k < a.len() implies cong(peval(a, #[trigger] w.gammas[k]), 0) by {
        let x = w.gammas[k];
        lemma_powers(a, x);
        let y = w.y + w.y_advice[k];
        let z = w.z + w.z_advice[k];
        lemma_graded(out, n, y, x);
        lemma_graded(out, n, z, x);
        let f = |i: int| y[out + i] * pow(x, i as nat);
        let g = |i: int| z[out + i] * pow(x, i as nat);
        let d = |j: int| a[j] * pow(x, j as nat);
        lemma_sum_sub(n, f, g);
        let fg = |i: int| f(i) - g(i);
        assert forall|j: int| 0 <= j < n implies #[trigger] d(j) == fg(j) by {
            let u = w.y[out + j];
            let v = w.z[out + j];
            let p = pow(x, j as nat);
            assert((u - v) * p == u * p - v * p) by (nonlinear_arith);
        }
        lemma_sum_eq(n, d, fg);
        let s = sum_to(n, f);
        let t = sum_to(n, g);
        assert(w.settled(graded(out, n), k));
        lemma_cong_ops(s, t, t, t);
    }
    law_roots(a, w.gammas);
    assert forall|j: int| out <= j < out + n implies cong(#[trigger] w.y[j], w.z[j]) by {
        assert(cong(a[j - out], 0));
        lemma_cong_ops(w.y[j] - w.z[j], 0, w.z[j], w.z[j]);
    }
}

/// The rows of a product or a convolution agree with rows that read cells before those that
/// it writes, and with the cells of its advice; the last rows with the sum of the advice
/// and that of what it writes.
spec fn spread(c: CircuitView, at: DeltaView, n: int, outs: int) -> bool {
    &&& 0 < at.out
    &&& forall|r: int| 0 <= r < n ==> reads_before(#[trigger] c.a[at.cr + r], at.out)
    &&& forall|r: int| 0 <= r < n ==> reads_before(#[trigger] c.b[at.cr + r], at.out)
    &&& forall|r: int|
        0 <= r < n ==> rows_agree(#[trigger] c.c[at.cr + r], seq![cell(at.aux + r)])
    &&& rows_agree(c.a[at.cr + n], cells(at.aux, n))
    &&& rows_agree(c.b[at.cr + n], seq![cell(0)])
    &&& rows_agree(c.c[at.cr + n], graded(at.out, outs))
}

/// A row agrees with one that reads cells before a place.
spec fn reads_before(row: Seq<Entry>, out: int) -> bool {
    exists|want: Seq<Entry>| #[trigger] rows_agree(row, want) && row_in_range(want, out)
}

proof fn lemma_product_rows(i: int, c: CircuitView, o: Seq<int>, at: DeltaView, r: int)
    requires
        0 <= r <= o[1],
        product_violation(i, c, o, at, r) is None,
    ensures
        forall|s: int|
            r <= s < o[1] ==> rows_agree(#[trigger] c.a[at.cr + s], left_row(o[0], o[2], o[3], s)),
        forall|s: int|
            r <= s < o[1] ==> rows_agree(
                #[trigger] c.b[at.cr + s],
                graded(o[4] + s * o[2], o[2]),
            ),
        forall|s: int|
            r <= s < o[1] ==> rows_agree(#[trigger] c.c[at.cr + s], seq![cell(at.aux + s)]),
        rows_agree(c.a[at.cr + o[1]], cells(at.aux, o[1])),
        rows_agree(c.b[at.cr + o[1]], seq![cell(0)]),
        rows_agree(c.c[at.cr + o[1]], graded(at.out, o[0] * o[2])),
    decreases o[1] - r,
{
    if r < o[1] {
        lemma_product_rows(i, c, o, at, r + 1);
    }
}

proof fn lemma_convolution_rows(i: int, c: CircuitView, o: Seq<int>, at: DeltaView, r: int)
    requires
        0 <= r <= o[0],
        convolution_violation(i, c, o, at, r) is None,
    ensures
        ({
            let side = o[2] + o[3] - 1;
            &&& forall|s: int|
                r <= s < o[0] ==> rows_agree(
                    #[trigger] c.a[at.cr + s],
                    plane_row(o[2], side, o[4], s),
                )
            &&& forall|s: int|
                r <= s < o[0] ==> rows_agree(
                    #[trigger] c.b[at.cr + s],
                    kernel_row(o[3], o[1], side, o[5], s),
                )
            &&& forall|s: int|
                r <= s < o[0] ==> rows_agree(#[trigger] c.c[at.cr + s], seq![cell(at.aux + s)])
            &&& rows_agree(c.a[at.cr + o[0]], cells(at.aux, o[0]))
            &&& rows_agree(c.b[at.cr + o[0]], seq![cell(0)])
            &&& rows_agree(c.c[at.cr + o[0]], graded(at.out, o[1] * side * side))
        }),
    decreases o[0] - r,
{
    if r < o[0] {
        lemma_convolution_rows(i, c, o, at, r + 1);
    }
}

/// A run is within all the runs.
proof fn lemma_run(n: int, size: int, r: int)
    requires
        0 <= r < n,
        0 <= size,
    ensures
        0 <= r * size,
        r * size + size <= n * size,
{
    assert(0 <= r * size && r * size + size <= n * size) by (nonlinear_arith)
        requires
            0 <= r < n,
            0 <= size,
    ;
}

proof fn lemma_product_spread(w: Rivals, i: int)
    requires
        w.accepted(),
        w.checked(),
        0 <= i < w.enc.opcode.len(),
        w.enc.opcode[i] is MatMult,
    ensures
        ({
            let d = delta_at(w.enc, i);
            &&& spread(w.circuit, counters_at(w.enc, i), d.aux, d.out)
            &&& d.cr == d.aux + 1
        }),
{
    let c = w.circuit;
    let at = counters_at(w.enc, i);
    let o = operands_of(w.enc, i);
    lemma_places(w, i);
    assert(o[0] >= 0 && o[1] >= 0 && o[2] >= 0 && o[3] >= 0 && o[4] >= 0);
    lemma_product_rows(i, c, o, at, 0);
    assert forall|r: int| 0 <= r < o[1] implies reads_before(#[trigger] c.a[at.cr + r], at.out) by {
        lemma_run(o[1], o[0], r);
        let want = left_row(o[0], o[2], o[3], r);
        assert(row_in_range(want, at.out));
        assert(rows_agree(c.a[at.cr + r], want));
    }
    assert forall|r: int| 0 <= r < o[1] implies reads_before(#[trigger] c.b[at.cr + r], at.out) by {
        lemma_run(o[1], o[2], r);
        let want = graded(o[4] + r * o[2], o[2]);
        assert(row_in_range(want, at.out));
        assert(rows_agree(c.b[at.cr + r], want));
    }
    assert(0 < o[1] * o[0]) by (nonlinear_arith)
        requires
            o[0] > 0,
            o[1] > 0,
    ;
}

proof fn lemma_convolution_spread(w: Rivals, i: int)
    requires
        w.accepted(),
        w.checked(),
        0 <= i < w.enc.opcode.len(),
        w.enc.opcode[i] is Conv,
    ensures
        ({
            let d = delta_at(w.enc, i);
            &&& spread(w.circuit, counters_at(w.enc, i), d.aux, d.out)
            &&& d.cr == d.aux + 1
        }),
{
    let c = w.circuit;
    let at = counters_at(w.enc, i);
    let o = operands_of(w.enc, i);
    let side = o[2] + o[3] - 1;
    lemma_places(w, i);
    assert(o[0] >= 0 && o[1] >= 0 && o[2] >= 0 && o[3] >= 0 && o[4] >= 0 && o[5] >= 0);
    lemma_convolution_rows(i, c, o, at, 0);
    let plane = o[2] * o[2];
    let kernels = o[1] * (o[3] * o[3]);
    assert(plane >= 0 && kernels >= 0) by (nonlinear_arith)
        requires
            plane == o[2] * o[2],
            kernels == o[1] * (o[3] * o[3]),
            o[1] >= 0,
    ;
    assert forall|r: int| 0 <= r < o[0] implies reads_before(#[trigger] c.a[at.cr + r], at.out) by {
        lemma_run(o[0], plane, r);
        let want = plane_row(o[2], side, o[4], r);
        assert(row_in_range(want, at.out));
        assert(rows_agree(c.a[at.cr + r], want));
    }
    assert forall|r: int| 0 <= r < o[0] implies reads_before(#[trigger] c.b[at.cr + r], at.out) by {
        lemma_run(o[0], kernels, r);
        let want = kernel_row(o[3], o[1], side, o[5], r);
        assert(row_in_range(want, at.out));
        assert(rows_agree(c.b[at.cr + r], want));
    }
    assert(0 < o[0] * (o[2] * o[2])) by (nonlinear_arith)
        requires
            o[0] > 0,
            o[2] > 0,
    ;
}

/// A product of matrices or a convolution leaves no choice of the randomized sum of what
/// it writes.
proof fn lemma_linear_sum_fixed(w: Rivals, i: int, k: int)
    requires
        w.accepted(),
        w.checked(),
        0 <= i < w.enc.opcode.len(),
        w.enc.opcode[i] is MatMult || w.enc.opcode[i] is Conv,
        same_cells(w.y, w.z, counters_at(w.enc, i).out),
        0 <= k < w.gammas.len(),
    ensures
        w.settled(graded(counters_at(w.enc, i).out, delta_at(w.enc, i).out), k),
{
    let c = w.circuit;
    let at = counters_at(w.enc, i);
    let n = delta_at(w.enc, i).aux;
    lemma_places(w, i);
    lemma_delta(w.enc, i);
    if w.enc.opcode[i] is MatMult {
        lemma_product_spread(w, i);
    } else {
        lemma_convolution_spread(w, i);
    }
    let y = w.y + w.y_advice[k];
    let z = w.z + w.z_advice[k];
    let gamma = w.gammas[k];
    assert(satisfied(c, w.y + w.y_advice[k], gamma));
    assert(satisfied(c, w.z + w.z_advice[k], gamma));
    assert forall|r: int| 0 <= r < n implies cong(
        y[aux_cell(at, r)],
        z[#[trigger] aux_cell(at, r)],
    ) by {
        lemma_spread_same(w, k, c.a[at.cr + r], at.out);
        lemma_spread_same(w, k, c.b[at.cr + r], at.out);
        lemma_third(c, y, z, gamma, at.cr + r);
        assert(rows_agree(c.c[at.cr + r], seq![cell(at.aux + r)]));
        lemma_row_is_cell(c.c[at.cr + r], at.aux + r, y, gamma);
        lemma_row_is_cell(c.c[at.cr + r], at.aux + r, z, gamma);
    }
    let last = cells(at.aux, n);
    assert forall|j: int| 0 <= j < last.len() implies cong(
        y[(#[trigger] last[j]).col],
        z[last[j].col],
    ) by {
        assert(last[j].col == aux_cell(at, j));
    }
    lemma_row_same(last, y, z, gamma);
    lemma_agree_same(w, k, c.a[at.cr + n], last);
    lemma_before_same(w, k, seq![cell(0)], at.out);
    lemma_agree_same(w, k, c.b[at.cr + n], seq![cell(0)]);
    lemma_third(c, y, z, gamma, at.cr + n);
    lemma_agree_same(w, k, c.c[at.cr + n], graded(at.out, delta_at(w.enc, i).out));
}

/// A cell of the advice of an instruction.
spec fn aux_cell(at: DeltaView, r: int) -> int {
    at.aux + r
}

proof fn lemma_spread_same(w: Rivals, k: int, row: Seq<Entry>, out: int)
    requires
        w.accepted(),
        0 <= k < w.gammas.len(),
        out <= w.enc.aux_start,
        same_cells(w.y, w.z, out),
        reads_before(row, out),
    ensures
        w.settled(row, k),
{
    let want = choose|want: Seq<Entry>| #[trigger]
        rows_agree(row, want) && row_in_range(want, out);
    lemma_before_same(w, k, want, out);
    lemma_agree_same(w, k, row, want);
}

/// The first instructions leave no choice of what they write.
proof fn lemma_fixed(w: Rivals, i: int)
    requires
        w.accepted(),
        w.checked(),
        0 <= i <= w.enc.opcode.len(),
        forall|j: int|
            0 <= j < w.enc.opcode.len() ==> #[trigger] fixes(
                w.enc,
                j,
                w.circuit.table,
                w.gammas,
            ),
    ensures
        same_cells(w.y, w.z, counters_at(w.enc, i).out),
    decreases i,
{
    if i > 0 {
        let out = counters_at(w.enc, i - 1).out;
        lemma_fixed(w, i - 1);
        lemma_places(w, i - 1);
        assert(fixes(w.enc, i - 1, w.circuit.table, w.gammas));
        match w.enc.opcode[i - 1] {
            Opcode::AddMult => lemma_add_mult_fixed(w, i - 1),
            Opcode::Lookup => lemma_lookup_fixed(w, i - 1),
            Opcode::Div => lemma_div_fixed(w, i - 1),
            _ => {
                let n = delta_at(w.enc, i - 1).out;
                assert forall|k: int| 0 <= k < w.gammas.len() implies #[trigger] w.settled(
                    graded(out, n),
                    k,
                ) by {
                    lemma_linear_sum_fixed(w, i - 1, k);
                }
                lemma_sums_fixed(w, out, n);
            },
        }
    }
}

/// A circuit that breaks none of the rules of the compilation of a program fixes what the
/// program writes: two traces that start with the same parameters and the same input, and
/// that satisfy the circuit with advice for enough challenges, have the same field elements
/// in all their cells. There are enough challenges if they are as many as the cells that a
/// product or a convolution writes. What is looked up is a function on the table, and the
/// table leaves no choice of the quotients of divisions.
pub proof fn law_determined(w: Rivals)
    requires
        w.accepted(),
        w.checked(),
        forall|j: int|
            0 <= j < w.enc.opcode.len() ==> #[trigger] fixes(
                w.enc,
                j,
                w.circuit.table,
                w.gammas,
            ),
    ensures
        same_cells(w.y, w.z, w.enc.aux_start),
{
    lemma_fixed(w, w.enc.opcode.len() as int);
    lemma_counted(w.enc);
}

/// There are as many challenges as an instruction writes cells, and the table leaves no
/// choice of the quotients of divisions.
pub open spec fn instruction_fixed(
    instr: Instruction,
    t: Seq<(int, int, int)>,
    g: Seq<int>,
) -> bool {
    &&& instr is MatMult || instr is Conv ==> instr.outputs() <= g.len()
    &&& instr matches Instruction::Div { divisor, .. } ==> quotients_fixed(t, divisor as int)
}

/// The circuit that a program without errors compiles to fixes what the program writes, if
/// there are enough challenges and the table leaves no choice of the quotients.
pub proof fn law_program_determined(
    w: Rivals,
    instrs: Seq<Instruction>,
    weights: Seq<i64>,
    input_len: int,
    aux_start: int,
    table: Seq<(int, int, int)>,
)
    requires
        validity_error(instrs, weights.len() as int, input_len, aux_start, table) is None,
        w.enc == encoding_of(instrs, weights.len() as int, input_len, aux_start),
        w.circuit == circuit_of(instrs, weights, input_len, aux_start, table),
        w.accepted(),
        forall|j: int|
            0 <= j < instrs.len() ==> instruction_fixed(#[trigger] instrs[j], table, w.gammas),
    ensures
        same_cells(w.y, w.z, aux_start),
{
    let e = w.enc;
    let wl = weights.len() as int;
    law_compiled(instrs, weights, input_len, aux_start, table);
    assert forall|i: int, s: int|
        0 <= i < e.opcode.len() && (e.opcode[i] is MatMult || e.opcode[i] is Conv) && 0 <= s
            < NUM_OPERANDS implies 0 <= #[trigger] operands_of(e, i)[s] by {
        assert(operands_of(e, i)[s] == instr_operands(instrs[i])[s]);
    }
    assert forall|j: int| 0 <= j < e.opcode.len() implies #[trigger] fixes(
        e,
        j,
        w.circuit.table,
        w.gammas,
    ) by {
        assert(operands_of(e, j) =~= instr_operands(instrs[j]));
        law_deltas_of_instruction(instrs[j]);
        assert(instruction_fixed(instrs[j], table, w.gammas));
        lemma_no_error(instrs, j, wl + input_len, aux_start, wl, table);
    }
    law_determined(w);
}

} // verus!
