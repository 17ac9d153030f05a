//! The circuit that a program compiles to keeps the rules of its encoding.
use vstd::prelude::*;
use crate::circuit::{CircuitView, Entry, LookupType, QUOTIENT_BOUND, plain_row};
use crate::compiler::{
    a_rows, aux_at, b_rows, c_rows, cell, circuit_of, cons_len, cr_at, d_rows, e_rows,
    lemma_no_error, lookup_len, lookup_tags, lr_at, row_error, rows_of, validity_error,
};
use crate::execution::lemma_row_reads;
use crate::instruction::Instruction;
use crate::program::out_at;
use super::encode::{
    DeltaView, convolution_violation, counted, counters_at, encoding_of, instr_operands,
    instruction_violation, instructions_violation, law_deltas_of_instruction, lemma_counted,
    one_hot, opcode_of, operands_of, product_violation, read_violation, rows_agree, violation,
};

verus! {

/// A row agrees with itself.
proof fn lemma_rows_agree(a: Seq<Entry>)
    ensures
        rows_agree(a, a),
{
}

/// The rows of an instruction are as many as it takes.
pub proof fn lemma_row_counts(instr: Instruction, out: int, aux: int)
    ensures
        a_rows(instr, out, aux).len() == cons_len(instr),
        b_rows(instr, out, aux).len() == cons_len(instr),
        c_rows(instr, out, aux).len() == cons_len(instr),
        d_rows(instr, out, aux).len() == lookup_len(instr),
        e_rows(instr, out, aux).len() == lookup_len(instr),
        lookup_tags(instr).len() == lookup_len(instr),
        cons_len(instr) >= 0,
        lookup_len(instr) >= 0,
{
}

/// The rows of the first `k` instructions are as many as they take.
pub proof fn lemma_rows_lens(instrs: Seq<Instruction>, k: int, start: int, aux_start: int)
    requires
        0 <= k <= instrs.len(),
    ensures
        ({
            let r = rows_of(instrs, k, start, aux_start);
            &&& r.a.len() == cr_at(instrs, k)
            &&& r.b.len() == cr_at(instrs, k)
            &&& r.c.len() == cr_at(instrs, k)
            &&& r.d.len() == lr_at(instrs, k)
            &&& r.e.len() == lr_at(instrs, k)
            &&& r.tp.len() == lr_at(instrs, k)
        }),
    decreases k,
{
    if k > 0 {
        lemma_rows_lens(instrs, k - 1, start, aux_start);
        lemma_row_counts(
            instrs[k - 1],
            out_at(instrs, start, k - 1),
            aux_at(instrs, aux_start, k - 1),
        );
    }
}

/// The rows of instruction `i` stand where they are counted.
pub proof fn lemma_rows_at(instrs: Seq<Instruction>, i: int, k: int, start: int, aux_start: int)
    requires
        0 <= i < k <= instrs.len(),
    ensures
        ({
            let all = rows_of(instrs, k, start, aux_start);
            let instr = instrs[i];
            let out = out_at(instrs, start, i);
            let aux = aux_at(instrs, aux_start, i);
            let cr = cr_at(instrs, i);
            let lr = lr_at(instrs, i);
            &&& all.a.len() >= cr + cons_len(instr)
            &&& all.d.len() >= lr + lookup_len(instr)
            &&& forall|r: int|
                0 <= r < cons_len(instr) ==> #[trigger] all.a[cr + r] == a_rows(instr, out, aux)[r]
            &&& forall|r: int|
                0 <= r < cons_len(instr) ==> #[trigger] all.b[cr + r] == b_rows(instr, out, aux)[r]
            &&& forall|r: int|
                0 <= r < cons_len(instr) ==> #[trigger] all.c[cr + r] == c_rows(instr, out, aux)[r]
            &&& forall|r: int|
                0 <= r < lookup_len(instr) ==> #[trigger] all.d[lr + r] == d_rows(
                    instr,
                    out,
                    aux,
                )[r]
            &&& forall|r: int|
                0 <= r < lookup_len(instr) ==> #[trigger] all.e[lr + r] == e_rows(
                    instr,
                    out,
                    aux,
                )[r]
            &&& forall|r: int|
                0 <= r < lookup_len(instr) ==> #[trigger] all.tp[lr + r] == lookup_tags(instr)[r]
        }),
    decreases k,
{
    lemma_rows_lens(instrs, k - 1, start, aux_start);
    lemma_rows_lens(instrs, k, start, aux_start);
    lemma_row_counts(instrs[i], out_at(instrs, start, i), aux_at(instrs, aux_start, i));
    lemma_row_counts(
        instrs[k - 1],
        out_at(instrs, start, k - 1),
        aux_at(instrs, aux_start, k - 1),
    );
    if i < k - 1 {
        lemma_rows_at(instrs, i, k - 1, start, aux_start);
        let all = rows_of(instrs, k, start, aux_start);
        let prev = rows_of(instrs, k - 1, start, aux_start);
        let instr = instrs[i];
        let out = out_at(instrs, start, i);
        let aux = aux_at(instrs, aux_start, i);
        let cr = cr_at(instrs, i);
        let lr = lr_at(instrs, i);
        lemma_rows_lens(instrs, i, start, aux_start);
        assert forall|r: int| 0 <= r < cons_len(instr) implies #[trigger] all.a[cr + r] == a_rows(
            instr,
            out,
            aux,
        )[r] by {
            assert(all.a[cr + r] == prev.a[cr + r]);
        }
        assert forall|r: int| 0 <= r < cons_len(instr) implies #[trigger] all.b[cr + r] == b_rows(
            instr,
            out,
            aux,
        )[r] by {
            assert(all.b[cr + r] == prev.b[cr + r]);
        }
        assert forall|r: int| 0 <= r < cons_len(instr) implies #[trigger] all.c[cr + r] == c_rows(
            instr,
            out,
            aux,
        )[r] by {
            assert(all.c[cr + r] == prev.c[cr + r]);
        }
        assert forall|r: int| 0 <= r < lookup_len(instr) implies #[trigger] all.d[lr + r] == d_rows(
            instr,
            out,
            aux,
        )[r] by {
            assert(all.d[lr + r] == prev.d[lr + r]);
        }
        assert forall|r: int| 0 <= r < lookup_len(instr) implies #[trigger] all.e[lr + r] == e_rows(
            instr,
            out,
            aux,
        )[r] by {
            assert(all.e[lr + r] == prev.e[lr + r]);
        }
        assert forall|r: int| 0 <= r < lookup_len(instr) implies #[trigger] all.tp[lr + r]
            == lookup_tags(instr)[r] by {
            assert(all.tp[lr + r] == prev.tp[lr + r]);
        }
    }
}

/// The counters of an encoding are those of the compilation.
pub proof fn lemma_counters_of(instrs: Seq<Instruction>, wl: int, il: int, aux_start: int, i: int)
    requires
        0 <= i <= instrs.len(),
    ensures
        counters_at(encoding_of(instrs, wl, il, aux_start), i) == (DeltaView {
            out: out_at(instrs, wl + il, i),
            aux: aux_at(instrs, aux_start, i),
            cr: cr_at(instrs, i),
            lr: lr_at(instrs, i),
        }),
    decreases i,
{
    if i > 0 {
        lemma_counters_of(instrs, wl, il, aux_start, i - 1);
        let e = encoding_of(instrs, wl, il, aux_start);
        assert(operands_of(e, i - 1) =~= instr_operands(instrs[i - 1]));
        law_deltas_of_instruction(instrs[i - 1]);
    }
}

/// A row that reads below a limit has nothing wrong with its reads.
pub proof fn lemma_reads(i: int, rule: Seq<char>, row: Seq<Entry>, limit: int, k: int)
    requires
        0 <= k,
        forall|q: int| k <= q < row.len() ==> (#[trigger] row[q]).col < limit,
    ensures
        read_violation(i, rule, row, limit, k) is None,
    decreases row.len() - k,
{
    if k < row.len() {
        assert(row[k].col < limit);
        lemma_reads(i, rule, row, limit, k + 1);
    }
}

/// A valid row of a linear combination has nothing wrong with its reads.
proof fn lemma_plain_reads(
    i: int,
    rule: Seq<char>,
    row: Seq<(usize, i64)>,
    out: int,
    aux_start: int,
    least: int,
)
    requires
        row_error(i as usize, row, out, aux_start, least, 0) is None,
    ensures
        read_violation(i, rule, plain_row(row), out, 0) is None,
{
    lemma_row_reads(i as usize, row, out, aux_start, least, 0);
    let r = plain_row(row);
    assert forall|q: int| 0 <= q < r.len() implies (#[trigger] r[q]).col < out by {
        assert(row[q].0 < out);
    }
    lemma_reads(i, rule, r, out, 0);
}

proof fn lemma_product(i: int, c: CircuitView, instr: Instruction, at: DeltaView, r: int)
    requires
        instr is MatMult,
        0 <= r <= cons_len(instr) - 1,
        forall|q: int|
            0 <= q < cons_len(instr) ==> #[trigger] c.a[at.cr + q] == a_rows(
                instr,
                at.out,
                at.aux,
            )[q],
        forall|q: int|
            0 <= q < cons_len(instr) ==> #[trigger] c.b[at.cr + q] == b_rows(
                instr,
                at.out,
                at.aux,
            )[q],
        forall|q: int|
            0 <= q < cons_len(instr) ==> #[trigger] c.c[at.cr + q] == c_rows(
                instr,
                at.out,
                at.aux,
            )[q],
    ensures
        product_violation(i, c, instr_operands(instr), at, r) is None,
    decreases cons_len(instr) - r,
{
    let n = cons_len(instr) - 1;
    let a = c.a[at.cr + r];
    let b = c.b[at.cr + r];
    let d = c.c[at.cr + r];
    lemma_rows_agree(a);
    lemma_rows_agree(b);
    lemma_rows_agree(d);
    if r < n {
        lemma_product(i, c, instr, at, r + 1);
    }
}

proof fn lemma_convolution(i: int, c: CircuitView, instr: Instruction, at: DeltaView, r: int)
    requires
        instr is Conv,
        0 <= r <= cons_len(instr) - 1,
        forall|q: int|
            0 <= q < cons_len(instr) ==> #[trigger] c.a[at.cr + q] == a_rows(
                instr,
                at.out,
                at.aux,
            )[q],
        forall|q: int|
            0 <= q < cons_len(instr) ==> #[trigger] c.b[at.cr + q] == b_rows(
                instr,
                at.out,
                at.aux,
            )[q],
        forall|q: int|
            0 <= q < cons_len(instr) ==> #[trigger] c.c[at.cr + q] == c_rows(
                instr,
                at.out,
                at.aux,
            )[q],
    ensures
        convolution_violation(i, c, instr_operands(instr), at, r) is None,
    decreases cons_len(instr) - r,
{
    let n = cons_len(instr) - 1;
    let a = c.a[at.cr + r];
    let b = c.b[at.cr + r];
    let d = c.c[at.cr + r];
    lemma_rows_agree(a);
    lemma_rows_agree(b);
    lemma_rows_agree(d);
    if r < n {
        lemma_convolution(i, c, instr, at, r + 1);
    }
}

/// Nothing is wrong with the rows of an instruction without errors.
#[verifier::rlimit(60)]
proof fn lemma_instruction(
    instrs: Seq<Instruction>,
    weights: Seq<i64>,
    il: int,
    aux_start: int,
    table: Seq<(int, int, int)>,
    i: int,
)
    requires
        0 <= i < instrs.len(),
        validity_error(instrs, weights.len() as int, il, aux_start, table) is None,
    ensures
        instruction_violation(
            encoding_of(instrs, weights.len() as int, il, aux_start),
            circuit_of(instrs, weights, il, aux_start, table),
            i,
        ) is None,
{
    let wl = weights.len() as int;
    let start = wl + il;
    let q = instrs.len() as int;
    let e = encoding_of(instrs, wl, il, aux_start);
    let c = circuit_of(instrs, weights, il, aux_start, table);
    let instr = instrs[i];
    let o = operands_of(e, i);
    assert(o =~= instr_operands(instr));
    lemma_no_error(instrs, i, start, aux_start, wl, table);
    lemma_rows_at(instrs, i, q, start, aux_start);
    let at = DeltaView { out: e.out[i], aux: e.aux[i], cr: e.cr[i], lr: e.lr[i] };
    let out = at.out;
    let aux = at.aux;
    assert(e.opcode[i] == opcode_of(instr));
    match instr {
        Instruction::AddMult { input1, input2 } => {
            assert(c.a[at.cr + 0] == plain_row(input1@));
            assert(c.b[at.cr + 0] == plain_row(input2@));
            assert(c.c[at.cr + 0] == seq![cell(out)]);
            lemma_plain_reads(i, "AddMult reads"@, input1@, out, aux_start, wl);
            lemma_plain_reads(i, "AddMult reads"@, input2@, out, aux_start, 0);
            lemma_rows_agree(seq![cell(out)]);
        },
        Instruction::Lookup { input, tp } => {
            assert(c.d[at.lr + 0] == plain_row(input@));
            assert(c.e[at.lr + 0] == seq![cell(out)]);
            assert(c.tp[at.lr + 0] == tp.tag_of());
            lemma_plain_reads(i, "Lookup reads"@, input@, out, aux_start, wl);
            lemma_rows_agree(seq![cell(out)]);
        },
        Instruction::Div { input1, input2, divisor } => {
            let row = seq![Entry { col: out, val: divisor as int, pow: 0 }, cell(aux)];
            assert(c.a[at.cr + 0] == plain_row(input1@));
            assert(c.b[at.cr + 0] == plain_row(input2@));
            assert(c.c[at.cr + 0] == row);
            assert(c.d[at.lr + 0] == Seq::<Entry>::empty());
            assert(c.e[at.lr + 0] == seq![cell(aux)]);
            assert(c.tp[at.lr + 0] == LookupType::Range(divisor).tag_of());
            assert(c.d[at.lr + 1] == Seq::<Entry>::empty());
            assert(c.e[at.lr + 1] == seq![cell(out)]);
            assert(c.tp[at.lr + 1] == LookupType::Bound(QUOTIENT_BOUND).tag_of());
            lemma_plain_reads(i, "Div reads"@, input1@, out, aux_start, wl);
            lemma_plain_reads(i, "Div reads"@, input2@, out, aux_start, 0);
            lemma_rows_agree(row);
            lemma_rows_agree(Seq::<Entry>::empty());
            lemma_rows_agree(seq![cell(aux)]);
            lemma_rows_agree(seq![cell(out)]);
        },
        Instruction::MatMult { m, n, k, start1, start2 } => {
            lemma_product(i, c, instr, at, 0);
        },
        Instruction::Conv { n, m, in_channels, out_channels, start1, start2 } => {
            lemma_convolution(i, c, instr, at, 0);
        },
    }
}

proof fn lemma_instructions(
    instrs: Seq<Instruction>,
    weights: Seq<i64>,
    il: int,
    aux_start: int,
    table: Seq<(int, int, int)>,
    i: int,
)
    requires
        0 <= i <= instrs.len(),
        validity_error(instrs, weights.len() as int, il, aux_start, table) is None,
    ensures
        instructions_violation(
            encoding_of(instrs, weights.len() as int, il, aux_start),
            circuit_of(instrs, weights, il, aux_start, table),
            i,
        ) is None,
    decreases instrs.len() - i,
{
    if i < instrs.len() {
        lemma_instruction(instrs, weights, il, aux_start, table, i);
        lemma_instructions(instrs, weights, il, aux_start, table, i + 1);
    }
}

/// The circuit that a program without errors compiles to breaks none of the rules that
/// say that it is the compilation of the program.
pub proof fn law_compiled(
    instrs: Seq<Instruction>,
    weights: Seq<i64>,
    input_len: int,
    aux_start: int,
    table: Seq<(int, int, int)>,
)
    requires
        validity_error(instrs, weights.len() as int, input_len, aux_start, table) is None,
    ensures
        violation(
            encoding_of(instrs, weights.len() as int, input_len, aux_start),
            circuit_of(instrs, weights, input_len, aux_start, table),
        ) is None,
{
    let wl = weights.len() as int;
    let start = wl + input_len;
    let q = instrs.len() as int;
    let e = encoding_of(instrs, wl, input_len, aux_start);
    let c = circuit_of(instrs, weights, input_len, aux_start, table);
    lemma_rows_lens(instrs, q, start, aux_start);
    lemma_no_error(instrs, q, start, aux_start, wl, table);
    assert(counted(e)) by {
        lemma_counters_of(instrs, wl, input_len, aux_start, q);
        assert forall|i: int| 0 <= i < q implies (DeltaView {
            out: #[trigger] e.out[i],
            aux: e.aux[i],
            cr: e.cr[i],
            lr: e.lr[i],
        }) == counters_at(e, i) by {
            lemma_counters_of(instrs, wl, input_len, aux_start, i);
        }
        assert forall|i: int| 0 <= i < q implies #[trigger] one_hot(e, i) by {
            let k = opcode_of(instrs[i]).number();
            assert(e.sel[0][i] == if k == 0 { 1int } else { 0 });
            assert(e.sel[1][i] == if k == 1 { 1int } else { 0 });
            assert(e.sel[2][i] == if k == 2 { 1int } else { 0 });
            assert(e.sel[3][i] == if k == 3 { 1int } else { 0 });
            assert(e.sel[4][i] == if k == 4 { 1int } else { 0 });
        }
    }
    lemma_counted(e);
    lemma_instructions(instrs, weights, input_len, aux_start, table, 0);
}

} // verus!
