//! Where all the rules hold of a program and a circuit, the circuit is the compilation of
//! the program.
use vstd::prelude::*;
use crate::circuit::{CircuitView, Entry, plain_row};
use crate::compiler::{
    a_rows, b_rows, c_rows, cell, cells, cons_len, d_rows, e_rows, lookup_len, lookup_tags,
    row_error,
};
use crate::execution::lemma_row_reads;
use crate::field::cong;
use crate::instruction::Instruction;
use super::accepted::check_holds;
use super::bound::{
    lemma_outputs_bound, lemma_products_bound, lemma_types_bound, parameters_apart, sides_match,
};
use super::bound_linear::lemma_expansion_bound;
use super::bound_reads::{
    lemma_inputs_bound, lemma_lookup_reads_bound, lemma_plain_reads_bound, lemma_some_parameters,
};
use super::certificate::{circuit_vectors, registrable};
use super::columns::{lemma_ready, lemma_rows_len};
use super::compiled::lemma_reads;
use super::compiled_laws::{
    Compiled, lemma_instr, lemma_instr_rows, lemma_linear_row, lemma_lu_row,
};
use super::encode::{
    DeltaView, EncodingView, convolution_violation, instr_operands, instruction_violation,
    instructions_violation, lemma_counted, lemma_rows_agree, operands_of, product_violation,
    rows_agree, violation,
};
use super::relation::{
    check_inputs, eq_expansion, eq_outputs, eq_products, eq_ranges, eq_types, equalities_of,
    zero_checks_of,
};
use super::row_counts::columns_differ;
use super::slacks::law_slacks;
use super::witness::circuit_profile;
use super::zero_laws::lemma_cons_row;

verus! {

/// All the rules of a program and a circuit hold of their vectors: the expressions of the
/// zero checks vanish, and the two sides of the equalities have the same parts equally
/// often.
pub open spec fn rules_hold(e: EncodingView, c: CircuitView, chals: Seq<int>) -> bool {
    let f = circuit_vectors(e, c);
    let p = circuit_profile(e, c);
    &&& forall|i: int|
        0 <= i < zero_checks_of(p).len() ==> check_holds(f, #[trigger] zero_checks_of(p)[i], chals)
    &&& forall|i: int|
        0 <= i < equalities_of(p).len() ==> sides_match(f, #[trigger] equalities_of(p)[i])
}

/// A run of cells is in different columns.
proof fn lemma_run_differs(row: Seq<Entry>, base: int)
    requires
        forall|k: int| 0 <= k < row.len() ==> (#[trigger] row[k]).col == base + k,
    ensures
        columns_differ(row),
{
}

/// The entries of a row are ones in different columns.
pub open spec fn plain_ones(row: Seq<Entry>) -> bool {
    &&& columns_differ(row)
    &&& forall|k: int| 0 <= k < row.len() ==> (#[trigger] row[k]).val == 1
}

/// The rows of a product of matrices or a convolution hold ones in different columns.
proof fn lemma_linear_ones(instr: Instruction, out: int, aux: int, s: int)
    requires
        instr is MatMult || instr is Conv,
        0 <= s < cons_len(instr),
    ensures
        plain_ones(a_rows(instr, out, aux)[s]),
        plain_ones(b_rows(instr, out, aux)[s]),
        plain_ones(c_rows(instr, out, aux)[s]),
{
    let a = a_rows(instr, out, aux)[s];
    let b = b_rows(instr, out, aux)[s];
    let c = c_rows(instr, out, aux)[s];
    let last = cons_len(instr) - 1;
    if s == last {
        lemma_run_differs(a, aux);
        lemma_run_differs(b, 0);
        lemma_run_differs(c, out);
    } else {
        lemma_run_differs(c, aux + s);
        match instr {
            Instruction::MatMult { m, n, k, start1, start2 } => {
                lemma_run_differs(a, start1 + s * m);
                lemma_run_differs(b, start2 + s * k);
            },
            Instruction::Conv { n, m, in_channels, out_channels, start1, start2 } => {
                lemma_run_differs(a, start1 + s * (n * n));
                lemma_run_differs(b, start2 + s * (out_channels * (m * m)));
            },
            _ => {},
        }
    }
}

/// The columns of a row are from the given one on.
pub open spec fn row_from(row: Seq<Entry>, lo: int) -> bool {
    forall|k: int| 0 <= k < row.len() ==> lo <= (#[trigger] row[k]).col
}

/// A plain row of a valid instruction reads from the first cell that it may read on.
proof fn lemma_plain_from(
    idx: usize,
    row: Seq<(usize, i64)>,
    out: int,
    aux_start: int,
    least: int,
)
    requires
        row_error(idx, row, out, aux_start, least, 0) is None,
    ensures
        row_from(plain_row(row), least),
{
    lemma_row_reads(idx, row, out, aux_start, least, 0);
    let r = plain_row(row);
    assert forall|k: int| 0 <= k < r.len() implies least <= (#[trigger] r[k]).col by {
        assert(least <= row[k].0 < out);
    }
}

/// The rows of an instruction have no entries in the columns of the parameters, but for
/// those of the second matrix.
proof fn lemma_instr_from(w: Compiled, i: int)
    requires
        w.ready(),
        0 <= i < w.instrs.len(),
    ensures
        ({
            let e = w.encoding();
            let instr = w.instrs[i];
            let wl = w.weights.len() as int;
            let out = e.out[i];
            let aux = e.aux[i];
            &&& forall|s: int|
                0 <= s < cons_len(instr) ==> row_from(#[trigger] a_rows(instr, out, aux)[s], wl)
            &&& forall|s: int|
                0 <= s < cons_len(instr) ==> row_from(#[trigger] c_rows(instr, out, aux)[s], wl)
            &&& forall|s: int|
                0 <= s < lookup_len(instr) ==> row_from(#[trigger] d_rows(instr, out, aux)[s], wl)
            &&& forall|s: int|
                0 <= s < lookup_len(instr) ==> row_from(#[trigger] e_rows(instr, out, aux)[s], wl)
        }),
{
    let e = w.encoding();
    let instr = w.instrs[i];
    let wl = w.weights.len() as int;
    let out = e.out[i];
    let aux = e.aux[i];
    lemma_instr(w, i);
    match instr {
        Instruction::AddMult { input1, input2 } => {
            lemma_plain_from(i as usize, input1@, out, w.aux_start, wl);
        },
        Instruction::Lookup { input, tp } => {
            lemma_plain_from(i as usize, input@, out, w.aux_start, wl);
        },
        Instruction::Div { input1, input2, divisor } => {
            lemma_plain_from(i as usize, input1@, out, w.aux_start, wl);
        },
        Instruction::MatMult { m, n, k, start1, start2 } => {
            assert forall|s: int| 0 <= s < cons_len(instr) implies row_from(
                #[trigger] a_rows(instr, out, aux)[s],
                wl,
            ) by {
                assert(s * m >= 0) by (nonlinear_arith)
                    requires
                        s >= 0,
                ;
            }
        },
        Instruction::Conv { n, m, in_channels, out_channels, start1, start2 } => {
            assert forall|s: int| 0 <= s < cons_len(instr) implies row_from(
                #[trigger] a_rows(instr, out, aux)[s],
                wl,
            ) by {
                assert(s * (n * n) >= 0) by (nonlinear_arith)
                    requires
                        s >= 0,
                ;
            }
        },
    }
}

/// The circuit that a program compiles to has entries in the columns of the parameters in
/// its second matrix only.
pub proof fn law_parameters_apart(w: Compiled)
    requires
        w.ready(),
    ensures
        parameters_apart(w.circuit()),
{
    let e = w.encoding();
    let d = w.circuit();
    let q = w.instrs.len() as int;
    let wl = w.weights.len() as int;
    lemma_rows_len(e, q);
    assert forall|r: int, k: int| 0 <= r < d.a.len() && 0 <= k < d.a[r].len() implies wl <= (
    #[trigger] d.a[r][k]).col by {
        let at = lemma_cons_row(e, q, r);
        lemma_instr(w, at.0);
        lemma_instr_rows(w, at.0);
        lemma_instr_from(w, at.0);
        assert(d.a[e.cr[at.0] + at.1] == a_rows(w.instrs[at.0], e.out[at.0], e.aux[at.0])[at.1]);
    }
    assert forall|r: int, k: int| 0 <= r < d.c.len() && 0 <= k < d.c[r].len() implies wl <= (
    #[trigger] d.c[r][k]).col by {
        let at = lemma_cons_row(e, q, r);
        lemma_instr(w, at.0);
        lemma_instr_rows(w, at.0);
        lemma_instr_from(w, at.0);
        assert(d.c[e.cr[at.0] + at.1] == c_rows(w.instrs[at.0], e.out[at.0], e.aux[at.0])[at.1]);
    }
    assert forall|r: int, k: int| 0 <= r < d.d.len() && 0 <= k < d.d[r].len() implies wl <= (
    #[trigger] d.d[r][k]).col by {
        let at = lemma_lu_row(e, q, r);
        lemma_instr(w, at.0);
        lemma_instr_rows(w, at.0);
        lemma_instr_from(w, at.0);
        assert(d.d[e.lr[at.0] + at.1] == d_rows(w.instrs[at.0], e.out[at.0], e.aux[at.0])[at.1]);
    }
    assert forall|r: int, k: int| 0 <= r < d.e.len() && 0 <= k < d.e[r].len() implies wl <= (
    #[trigger] d.e[r][k]).col by {
        let at = lemma_lu_row(e, q, r);
        lemma_instr(w, at.0);
        lemma_instr_rows(w, at.0);
        lemma_instr_from(w, at.0);
        assert(d.e[e.lr[at.0] + at.1] == e_rows(w.instrs[at.0], e.out[at.0], e.aux[at.0])[at.1]);
    }
}

/// What the rules that bind a circuit say: the rules by name.
proof fn lemma_rules(e: EncodingView, c: CircuitView, chals: Seq<int>)
    requires
        rules_hold(e, c, chals),
    ensures
        ({
            let f = circuit_vectors(e, c);
            let p = circuit_profile(e, c);
            &&& check_holds(f, check_inputs(p), chals)
            &&& sides_match(f, eq_ranges(p))
            &&& sides_match(f, eq_products(p))
            &&& sides_match(f, eq_outputs(p))
            &&& sides_match(f, eq_types(p))
            &&& sides_match(f, eq_expansion(p))
        }),
{
    let p = circuit_profile(e, c);
    reveal(zero_checks_of);
    reveal(equalities_of);
    let xs = zero_checks_of(p);
    let es = equalities_of(p);
    assert(xs[5] == check_inputs(p));
    assert(es[6] == eq_ranges(p));
    assert(es[7] == eq_products(p));
    assert(es[8] == eq_outputs(p));
    assert(es[9] == eq_types(p));
    assert(es.last() == eq_expansion(p));
    assert(es[es.len() - 1] == eq_expansion(p));
}

/// The rows of a product of matrices or a convolution are the compiled ones.
proof fn lemma_linear_bound(w: Compiled, c: CircuitView, chals: Seq<int>, i: int, s: int)
    requires
        w.ready(),
        registrable(w.encoding(), c),
        parameters_apart(c),
        rules_hold(w.encoding(), c, chals),
        0 <= i < w.instrs.len(),
        w.instrs[i] is MatMult || w.instrs[i] is Conv,
        0 <= s < cons_len(w.instrs[i]),
    ensures
        ({
            let e = w.encoding();
            let r = e.cr[i] + s;
            let instr = w.instrs[i];
            &&& rows_agree(c.a[r], a_rows(instr, e.out[i], e.aux[i])[s])
            &&& rows_agree(c.b[r], b_rows(instr, e.out[i], e.aux[i])[s])
            &&& rows_agree(c.c[r], c_rows(instr, e.out[i], e.aux[i])[s])
        }),
{
    let e = w.encoding();
    let d = w.circuit();
    let r = e.cr[i] + s;
    let instr = w.instrs[i];
    lemma_rules(e, c, chals);
    lemma_some_parameters(e, c);
    law_slacks(w);
    law_parameters_apart(w);
    lemma_instr(w, i);
    lemma_instr_rows(w, i);
    lemma_linear_row(w, i, s);
    lemma_linear_ones(instr, e.out[i], e.aux[i], s);
    assert(d.a[e.cr[i] + s] == a_rows(instr, e.out[i], e.aux[i])[s]);
    assert(d.b[e.cr[i] + s] == b_rows(instr, e.out[i], e.aux[i])[s]);
    assert(d.c[e.cr[i] + s] == c_rows(instr, e.out[i], e.aux[i])[s]);
    lemma_expansion_bound(w, c, 0, r);
    lemma_expansion_bound(w, c, 1, r);
    lemma_expansion_bound(w, c, 2, r);
}

proof fn lemma_product_rows(
    w: Compiled,
    c: CircuitView,
    chals: Seq<int>,
    i: int,
    at: DeltaView,
    r: int,
)
    requires
        w.ready(),
        registrable(w.encoding(), c),
        parameters_apart(c),
        rules_hold(w.encoding(), c, chals),
        0 <= i < w.instrs.len(),
        w.instrs[i] is MatMult,
        0 <= r <= cons_len(w.instrs[i]) - 1,
        at.out == w.encoding().out[i],
        at.aux == w.encoding().aux[i],
        at.cr == w.encoding().cr[i],
    ensures
        product_violation(i, c, instr_operands(w.instrs[i]), at, r) is None,
    decreases cons_len(w.instrs[i]) - r,
{
    lemma_linear_bound(w, c, chals, i, r);
    if r < cons_len(w.instrs[i]) - 1 {
        lemma_product_rows(w, c, chals, i, at, r + 1);
    }
}

proof fn lemma_convolution_rows(
    w: Compiled,
    c: CircuitView,
    chals: Seq<int>,
    i: int,
    at: DeltaView,
    r: int,
)
    requires
        w.ready(),
        registrable(w.encoding(), c),
        parameters_apart(c),
        rules_hold(w.encoding(), c, chals),
        0 <= i < w.instrs.len(),
        w.instrs[i] is Conv,
        0 <= r <= cons_len(w.instrs[i]) - 1,
        at.out == w.encoding().out[i],
        at.aux == w.encoding().aux[i],
        at.cr == w.encoding().cr[i],
    ensures
        convolution_violation(i, c, instr_operands(w.instrs[i]), at, r) is None,
    decreases cons_len(w.instrs[i]) - r,
{
    lemma_linear_bound(w, c, chals, i, r);
    if r < cons_len(w.instrs[i]) - 1 {
        lemma_convolution_rows(w, c, chals, i, at, r + 1);
    }
}

/// The reads and the output of a plain constraint row are the compiled ones.
proof fn lemma_plain_bound(w: Compiled, c: CircuitView, chals: Seq<int>, i: int)
    requires
        w.ready(),
        registrable(w.encoding(), c),
        parameters_apart(c),
        rules_hold(w.encoding(), c, chals),
        0 <= i < w.instrs.len(),
        w.instrs[i] is AddMult || w.instrs[i] is Div,
    ensures
        ({
            let e = w.encoding();
            let r = e.cr[i];
            let out = e.out[i];
            &&& forall|k: int| 0 <= k < c.a[r].len() ==> (#[trigger] c.a[r][k]).col < out
            &&& forall|k: int| 0 <= k < c.b[r].len() ==> (#[trigger] c.b[r][k]).col < out
            &&& rows_agree(c.c[r], c_rows(w.instrs[i], out, e.aux[i])[0])
        }),
{
    let e = w.encoding();
    let d = w.circuit();
    let r = e.cr[i];
    let out = e.out[i];
    let instr = w.instrs[i];
    lemma_rules(e, c, chals);
    law_parameters_apart(w);
    lemma_instr(w, i);
    lemma_instr_rows(w, i);
    lemma_linear_row(w, i, 0);
    assert forall|k: int| 0 <= k < c.a[r].len() implies (#[trigger] c.a[r][k]).col < out by {
        assert(c.a[r + 0][k] == c.a[r][k]);
        lemma_plain_reads_bound(e, c, 0, i, 0, k);
    }
    assert forall|k: int| 0 <= k < c.b[r].len() implies (#[trigger] c.b[r][k]).col < out by {
        if c.weight_len <= c.b[r][k].col {
            assert(c.b[r + 0][k] == c.b[r][k]);
            lemma_plain_reads_bound(e, c, 1, i, 0, k);
        }
    }
    let row = c_rows(instr, out, e.aux[i])[0];
    assert(d.c[r + 0] == row);
    lemma_ready(e, i);
    assert(columns_differ(row)) by {
        assert forall|j: int, k: int| 0 <= j < k < row.len() implies (#[trigger] row[j]).col != (
        #[trigger] row[k]).col by {
            assert(j == 0 && k == 1);
            assert(out < e.aux[i]);
        }
    }
    lemma_products_bound(w, c, r);
}

/// The lookup rows of an instruction are the compiled ones.
proof fn lemma_lookup_bound(w: Compiled, c: CircuitView, chals: Seq<int>, i: int, s: int)
    requires
        w.ready(),
        registrable(w.encoding(), c),
        parameters_apart(c),
        rules_hold(w.encoding(), c, chals),
        0 <= i < w.instrs.len(),
        0 <= s < lookup_len(w.instrs[i]),
    ensures
        ({
            let e = w.encoding();
            let r = e.lr[i] + s;
            let out = e.out[i];
            &&& forall|k: int| 0 <= k < c.d[r].len() ==> (#[trigger] c.d[r][k]).col < out
            &&& !(w.instrs[i] is Lookup) ==> c.d[r].len() == 0
            &&& rows_agree(c.e[r], e_rows(w.instrs[i], out, e.aux[i])[s])
            &&& cong(c.tp[r], lookup_tags(w.instrs[i])[s])
        }),
{
    let e = w.encoding();
    let d = w.circuit();
    let r = e.lr[i] + s;
    let out = e.out[i];
    let instr = w.instrs[i];
    lemma_rules(e, c, chals);
    law_parameters_apart(w);
    lemma_instr(w, i);
    lemma_instr_rows(w, i);
    assert forall|k: int| 0 <= k < c.d[r].len() implies (#[trigger] c.d[r][k]).col < out by {
        lemma_lookup_reads_bound(e, c, i, s, k);
    }
    if !(instr is Lookup) {
        lemma_inputs_bound(e, c, chals, i, s);
    }
    assert(d.e[e.lr[i] + s] == e_rows(instr, out, e.aux[i])[s]);
    assert(d.tp[e.lr[i] + s] == lookup_tags(instr)[s]);
    lemma_outputs_bound(w, c, r);
    lemma_types_bound(w, c, r);
}

/// Nothing is wrong with the rows of an instruction.
#[verifier::rlimit(60)]
proof fn lemma_instruction_bound(w: Compiled, c: CircuitView, chals: Seq<int>, i: int)
    requires
        w.ready(),
        registrable(w.encoding(), c),
        parameters_apart(c),
        rules_hold(w.encoding(), c, chals),
        0 <= i < w.instrs.len(),
    ensures
        instruction_violation(w.encoding(), c, i) is None,
{
    let e = w.encoding();
    let instr = w.instrs[i];
    let at = DeltaView { out: e.out[i], aux: e.aux[i], cr: e.cr[i], lr: e.lr[i] };
    let o = operands_of(e, i);
    lemma_instr(w, i);
    match instr {
        Instruction::AddMult { input1, input2 } => {
            lemma_plain_bound(w, c, chals, i);
            lemma_reads(i, "AddMult reads"@, c.a[at.cr], at.out, 0);
            lemma_reads(i, "AddMult reads"@, c.b[at.cr], at.out, 0);
        },
        Instruction::Lookup { input, tp } => {
            lemma_lookup_bound(w, c, chals, i, 0);
            lemma_reads(i, "Lookup reads"@, c.d[at.lr], at.out, 0);
        },
        Instruction::Div { input1, input2, divisor } => {
            lemma_plain_bound(w, c, chals, i);
            lemma_reads(i, "Div reads"@, c.a[at.cr], at.out, 0);
            lemma_reads(i, "Div reads"@, c.b[at.cr], at.out, 0);
            lemma_lookup_bound(w, c, chals, i, 0);
            lemma_lookup_bound(w, c, chals, i, 1);
            let none = Seq::<Entry>::empty();
            assert(c.d[at.lr] =~= none);
            assert(c.d[at.lr + 1] =~= none);
            lemma_rows_agree(none);
        },
        Instruction::MatMult { m, n, k, start1, start2 } => {
            lemma_product_rows(w, c, chals, i, at, 0);
        },
        Instruction::Conv { n, m, in_channels, out_channels, start1, start2 } => {
            lemma_convolution_rows(w, c, chals, i, at, 0);
        },
    }
}

proof fn lemma_instructions_bound(w: Compiled, c: CircuitView, chals: Seq<int>, i: int)
    requires
        w.ready(),
        registrable(w.encoding(), c),
        parameters_apart(c),
        rules_hold(w.encoding(), c, chals),
        0 <= i <= w.instrs.len(),
    ensures
        instructions_violation(w.encoding(), c, i) is None,
    decreases w.instrs.len() - i,
{
    if i < w.instrs.len() {
        lemma_instruction_bound(w, c, chals, i);
        lemma_instructions_bound(w, c, chals, i + 1);
    }
}

/// Nothing is wrong with the whole.
proof fn lemma_all_bound(w: Compiled, c: CircuitView, chals: Seq<int>)
    requires
        w.ready(),
        registrable(w.encoding(), c),
        parameters_apart(c),
        rules_hold(w.encoding(), c, chals),
    ensures
        violation(w.encoding(), c) is None,
{
    lemma_counted(w.encoding());
    lemma_instructions_bound(w, c, chals, 0);
}

/// The cells that the lookup rows of an instruction write.
proof fn lemma_written_cells(w: Compiled, c: CircuitView, chals: Seq<int>, i: int)
    requires
        w.ready(),
        registrable(w.encoding(), c),
        parameters_apart(c),
        rules_hold(w.encoding(), c, chals),
        0 <= i < w.instrs.len(),
    ensures
        ({
            let e = w.encoding();
            let out = seq![Entry { col: e.out[i], val: 1, pow: 0 }];
            let aux = seq![Entry { col: e.aux[i], val: 1, pow: 0 }];
            &&& w.instrs[i] is Lookup ==> rows_agree(c.e[e.lr[i]], out)
            &&& w.instrs[i] is Div ==> rows_agree(c.e[e.lr[i]], aux) && rows_agree(
                c.e[e.lr[i] + 1],
                out,
            )
        }),
{
    if w.instrs[i] is Lookup {
        lemma_lookup_bound(w, c, chals, i, 0);
    } else if w.instrs[i] is Div {
        lemma_lookup_bound(w, c, chals, i, 0);
        lemma_lookup_bound(w, c, chals, i, 1);
    }
}

/// Where all the rules hold of the vectors of a program and a circuit that has entries in
/// the columns of the parameters in its second matrix only, nothing keeps the circuit from
/// being the compilation of the program. In particular each lookup writes its own cell and
/// no other, and each division its remainder in the first of its rows and its quotient in
/// the second.
pub proof fn law_rules_bind(w: Compiled, c: CircuitView, chals: Seq<int>)
    requires
        w.ready(),
        registrable(w.encoding(), c),
        parameters_apart(c),
        rules_hold(w.encoding(), c, chals),
    ensures
        violation(w.encoding(), c) is None,
        forall|i: int|
            0 <= i < w.instrs.len() && (#[trigger] w.instrs[i]) is Lookup ==> rows_agree(
                c.e[w.encoding().lr[i]],
                seq![Entry { col: w.encoding().out[i], val: 1, pow: 0 }],
            ),
        forall|i: int|
            0 <= i < w.instrs.len() && (#[trigger] w.instrs[i]) is Div ==> rows_agree(
                c.e[w.encoding().lr[i]],
                seq![Entry { col: w.encoding().aux[i], val: 1, pow: 0 }],
            ) && rows_agree(
                c.e[w.encoding().lr[i] + 1],
                seq![Entry { col: w.encoding().out[i], val: 1, pow: 0 }],
            ),
{
    lemma_all_bound(w, c, chals);
    assert forall|i: int| 0 <= i < w.instrs.len() && (#[trigger] w.instrs[i]) is Lookup implies
        rows_agree(
        c.e[w.encoding().lr[i]],
        seq![Entry { col: w.encoding().out[i], val: 1, pow: 0 }],
    ) by {
        lemma_written_cells(w, c, chals, i);
    }
    assert forall|i: int| 0 <= i < w.instrs.len() && (#[trigger] w.instrs[i]) is Div implies
        rows_agree(
        c.e[w.encoding().lr[i]],
        seq![Entry { col: w.encoding().aux[i], val: 1, pow: 0 }],
    ) && rows_agree(
        c.e[w.encoding().lr[i] + 1],
        seq![Entry { col: w.encoding().out[i], val: 1, pow: 0 }],
    ) by {
        lemma_written_cells(w, c, chals, i);
    }
}

} // verus!
