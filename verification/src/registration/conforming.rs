//! A circuit passes for the compilation of a program exactly where its rows are those that
//! the program compiles to.
use vstd::prelude::*;
use crate::circuit::{CircuitView, Entry};
use crate::compiler::{
    a_rows, b_rows, c_rows, cell, cells, cons_len, d_rows, e_rows, graded, kernel_row, left_row,
    lookup_len, lookup_tags, plane_row,
};
use crate::field::cong;
use crate::instruction::Instruction;
use super::compiled::law_compiled;
use super::compiled_laws::{Compiled, lemma_instr, lemma_instr_rows};
use super::encode::{
    DeltaView, EncodingView, Opcode, Violation, convolution_violation, instruction_violation,
    instructions_violation, operands_of, product_violation, read_violation, rows_agree, violation,
};

verus! {

/// The rows read cells before a place.
pub open spec fn reads_before(row: Seq<Entry>, limit: int) -> bool {
    forall|k: int| 0 <= k < row.len() ==> (#[trigger] row[k]).col < limit
}

/// A constraint row of an instruction is the one that it compiles to. Where the instruction
/// is no matrix product and no convolution, what its first two matrices read is its own
/// affair, as long as it was written before.
pub open spec fn constraint_conforms(w: Compiled, c: CircuitView, i: int, s: int) -> bool {
    let d = w.circuit();
    let r = w.encoding().cr[i] + s;
    let out = w.encoding().out[i];
    &&& rows_agree(c.c[r], d.c[r])
    &&& if w.instrs[i] is MatMult || w.instrs[i] is Conv {
        rows_agree(c.a[r], d.a[r]) && rows_agree(c.b[r], d.b[r])
    } else {
        reads_before(c.a[r], out) && reads_before(c.b[r], out)
    }
}

/// A lookup row of an instruction is the one that it compiles to. What a lookup reads is its
/// own affair, as long as it was written before.
pub open spec fn lookup_conforms(w: Compiled, c: CircuitView, i: int, s: int) -> bool {
    let d = w.circuit();
    let r = w.encoding().lr[i] + s;
    let out = w.encoding().out[i];
    &&& rows_agree(c.e[r], d.e[r])
    &&& cong(c.tp[r], d.tp[r])
    &&& if w.instrs[i] is Lookup {
        reads_before(c.d[r], out)
    } else {
        rows_agree(c.d[r], d.d[r])
    }
}

/// The rows of an instruction are those that it compiles to.
pub open spec fn rows_conform(w: Compiled, c: CircuitView, i: int) -> bool {
    &&& forall|s: int|
        0 <= s < cons_len(w.instrs[i]) ==> #[trigger] constraint_conforms(w, c, i, s)
    &&& forall|s: int|
        0 <= s < lookup_len(w.instrs[i]) ==> #[trigger] lookup_conforms(w, c, i, s)
}

proof fn lemma_read_iff(i: int, rule: Seq<char>, row: Seq<Entry>, limit: int, k: int)
    requires
        0 <= k,
    ensures
        read_violation(i, rule, row, limit, k) is None <==> forall|j: int|
            k <= j < row.len() ==> (#[trigger] row[j]).col < limit,
    decreases row.len() - k,
{
    if k < row.len() {
        lemma_read_iff(i, rule, row, limit, k + 1);
        assert(row[k].col < limit || !(row[k].col < limit));
    }
}

/// A row of a matrix product.
spec fn product_row(c: CircuitView, o: Seq<int>, at: DeltaView, s: int) -> bool {
    &&& rows_agree(c.c[at.cr + s], seq![cell(at.aux + s)])
    &&& rows_agree(c.a[at.cr + s], left_row(o[0], o[2], o[3], s))
    &&& rows_agree(c.b[at.cr + s], graded(o[4] + s * o[2], o[2]))
}

/// The rows of a matrix product from row `r` on.
spec fn product_rows(c: CircuitView, o: Seq<int>, at: DeltaView, r: int) -> bool {
    &&& forall|s: int| r <= s < o[1] ==> #[trigger] product_row(c, o, at, s)
    &&& rows_agree(c.a[at.cr + o[1]], cells(at.aux, o[1]))
    &&& rows_agree(c.b[at.cr + o[1]], seq![cell(0)])
    &&& rows_agree(c.c[at.cr + o[1]], graded(at.out, o[0] * o[2]))
}

proof fn lemma_product_iff(i: int, c: CircuitView, o: Seq<int>, at: DeltaView, r: int)
    requires
        0 <= r <= o[1],
    ensures
        product_violation(i, c, o, at, r) is None <==> product_rows(c, o, at, r),
    decreases o[1] - r,
{
    if r < o[1] {
        lemma_product_iff(i, c, o, at, r + 1);
        assert(product_rows(c, o, at, r) ==> product_row(c, o, at, r));
        assert(product_rows(c, o, at, r) <==> product_rows(c, o, at, r + 1) && product_row(
            c,
            o,
            at,
            r,
        )) by {
            if product_rows(c, o, at, r + 1) && product_row(c, o, at, r) {
                assert forall|s: int| r <= s < o[1] implies #[trigger] product_row(c, o, at, s) by {
                    if s > r {
                        assert(r + 1 <= s);
                    }
                }
            }
        }
    }
}

/// A row of a convolution.
spec fn convolution_row(c: CircuitView, o: Seq<int>, at: DeltaView, s: int) -> bool {
    let side = o[2] + o[3] - 1;
    &&& rows_agree(c.c[at.cr + s], seq![cell(at.aux + s)])
    &&& rows_agree(c.a[at.cr + s], plane_row(o[2], side, o[4], s))
    &&& rows_agree(c.b[at.cr + s], kernel_row(o[3], o[1], side, o[5], s))
}

/// The rows of a convolution from channel `r` on.
spec fn convolution_rows(c: CircuitView, o: Seq<int>, at: DeltaView, r: int) -> bool {
    let side = o[2] + o[3] - 1;
    &&& forall|s: int| r <= s < o[0] ==> #[trigger] convolution_row(c, o, at, s)
    &&& rows_agree(c.a[at.cr + o[0]], cells(at.aux, o[0]))
    &&& rows_agree(c.b[at.cr + o[0]], seq![cell(0)])
    &&& rows_agree(c.c[at.cr + o[0]], graded(at.out, o[1] * side * side))
}

proof fn lemma_convolution_iff(i: int, c: CircuitView, o: Seq<int>, at: DeltaView, r: int)
    requires
        0 <= r <= o[0],
    ensures
        convolution_violation(i, c, o, at, r) is None <==> convolution_rows(c, o, at, r),
    decreases o[0] - r,
{
    if r < o[0] {
        lemma_convolution_iff(i, c, o, at, r + 1);
        assert(convolution_rows(c, o, at, r) ==> convolution_row(c, o, at, r));
        assert(convolution_rows(c, o, at, r) <==> convolution_rows(c, o, at, r + 1)
            && convolution_row(c, o, at, r)) by {
            if convolution_rows(c, o, at, r + 1) && convolution_row(c, o, at, r) {
                assert forall|s: int| r <= s < o[0] implies #[trigger] convolution_row(
                    c,
                    o,
                    at,
                    s,
                ) by {
                    if s > r {
                        assert(r + 1 <= s);
                    }
                }
            }
        }
    }
}

/// The rows of a plain instruction are checked as they should be.
#[verifier::rlimit(40)]
proof fn lemma_plain(w: Compiled, c: CircuitView, i: int)
    requires
        w.ready(),
        0 <= i < w.instrs.len(),
        !(w.instrs[i] is MatMult || w.instrs[i] is Conv),
    ensures
        instruction_violation(w.encoding(), c, i) is None <==> rows_conform(w, c, i),
{
    let e = w.encoding();
    let d = w.circuit();
    let instr = w.instrs[i];
    let at = DeltaView { out: e.out[i], aux: e.aux[i], cr: e.cr[i], lr: e.lr[i] };
    lemma_instr(w, i);
    lemma_instr_rows(w, i);
    assert(d.c[e.cr[i] + 0] == d.c[e.cr[i]]);
    assert(c.c[e.cr[i] + 0] == c.c[e.cr[i]]);
    assert(c.e[e.lr[i] + 0] == c.e[e.lr[i]]);
    assert(d.e[e.lr[i] + 0] == d.e[e.lr[i]]);
    match instr {
        Instruction::AddMult { input1, input2 } => {
            lemma_read_iff(i, "AddMult reads"@, c.a[at.cr], at.out, 0);
            lemma_read_iff(i, "AddMult reads"@, c.b[at.cr], at.out, 0);
            assert(cons_len(instr) == 1 && lookup_len(instr) == 0);
            assert(rows_conform(w, c, i) ==> constraint_conforms(w, c, i, 0));
        },
        Instruction::Lookup { input, tp } => {
            lemma_read_iff(i, "Lookup reads"@, c.d[at.lr], at.out, 0);
            assert(cons_len(instr) == 0 && lookup_len(instr) == 1);
            assert(d.tp[e.lr[i] + 0] == lookup_tags(instr)[0]);
            assert(rows_conform(w, c, i) ==> lookup_conforms(w, c, i, 0));
        },
        Instruction::Div { input1, input2, divisor } => {
            lemma_read_iff(i, "Div reads"@, c.a[at.cr], at.out, 0);
            lemma_read_iff(i, "Div reads"@, c.b[at.cr], at.out, 0);
            assert(cons_len(instr) == 1 && lookup_len(instr) == 2);
            assert(d.tp[e.lr[i] + 0] == lookup_tags(instr)[0]);
            assert(d.tp[e.lr[i] + 1] == lookup_tags(instr)[1]);
            assert(d.d[e.lr[i] + 0] == d_rows(instr, at.out, at.aux)[0]);
            assert(d.d[e.lr[i] + 1] == d_rows(instr, at.out, at.aux)[1]);
            assert(d.e[e.lr[i] + 1] == e_rows(instr, at.out, at.aux)[1]);
            assert(rows_conform(w, c, i) ==> constraint_conforms(w, c, i, 0));
            assert(rows_conform(w, c, i) ==> lookup_conforms(w, c, i, 0));
            assert(rows_conform(w, c, i) ==> lookup_conforms(w, c, i, 1));
        },
        _ => {},
    }
}

/// Nothing is wrong with an instruction.
proof fn lemma_instruction(e: EncodingView, c: CircuitView, k: int, i: int)
    requires
        0 <= k <= i < e.opcode.len(),
        instructions_violation(e, c, k) is None,
    ensures
        instruction_violation(e, c, i) is None,
    decreases i - k,
{
    if k < i {
        lemma_instruction(e, c, k + 1, i);
    }
}

/// The rows that a matrix product compiles to.
proof fn lemma_product_shape(w: Compiled, i: int)
    requires
        w.ready(),
        0 <= i < w.instrs.len(),
        w.instrs[i] is MatMult,
    ensures
        ({
            let e = w.encoding();
            let d = w.circuit();
            let at = DeltaView { out: e.out[i], aux: e.aux[i], cr: e.cr[i], lr: e.lr[i] };
            let o = operands_of(e, i);
            let side = o[2] + o[3] - 1;
            &&& o[1] == cons_len(w.instrs[i]) - 1
            &&& o[1] >= 0
            &&& lookup_len(w.instrs[i]) == 0
            &&& forall|s: int|
                0 <= s < o[1] ==> {
                    &&& #[trigger] d.c[at.cr + s] == seq![cell(at.aux + s)]
                    &&& d.a[at.cr + s] == left_row(o[0], o[2], o[3], s)
                    &&& d.b[at.cr + s] == graded(o[4] + s * o[2], o[2])
                }
            &&& d.a[at.cr + o[1]] == cells(at.aux, o[1])
            &&& d.b[at.cr + o[1]] == seq![cell(0)]
            &&& d.c[at.cr + o[1]] == graded(at.out, o[0] * o[2])
            &&& instruction_violation(e, d, i) is None
        }),
{
    let e = w.encoding();
    let d = w.circuit();
    let instr = w.instrs[i];
    let (out, aux) = (e.out[i], e.aux[i]);
    let o = operands_of(e, i);
    lemma_instr(w, i);
    lemma_instr_rows(w, i);
    let m = o[1];
    assert(m == cons_len(instr) - 1);
    assert forall|s: int| 0 <= s < m implies {
        &&& #[trigger] d.c[e.cr[i] + s] == c_rows(instr, out, aux)[s]
        &&& d.a[e.cr[i] + s] == a_rows(instr, out, aux)[s]
        &&& d.b[e.cr[i] + s] == b_rows(instr, out, aux)[s]
    } by {
        assert(d.a[e.cr[i] + s] == a_rows(instr, out, aux)[s]);
        assert(d.b[e.cr[i] + s] == b_rows(instr, out, aux)[s]);
    }
    assert(d.c[e.cr[i] + m] == c_rows(instr, out, aux)[m]);
    assert(d.a[e.cr[i] + m] == a_rows(instr, out, aux)[m]);
    assert(d.b[e.cr[i] + m] == b_rows(instr, out, aux)[m]);
    law_compiled(w.instrs, w.weights, w.input_len, w.aux_start, w.table);
    lemma_instruction(e, d, 0, i);
}

/// The rows of a matrix product are checked as they should be.
proof fn lemma_product(w: Compiled, c: CircuitView, i: int)
    requires
        w.ready(),
        0 <= i < w.instrs.len(),
        w.instrs[i] is MatMult,
    ensures
        instruction_violation(w.encoding(), c, i) is None <==> rows_conform(w, c, i),
{
    let e = w.encoding();
    let d = w.circuit();
    let at = DeltaView { out: e.out[i], aux: e.aux[i], cr: e.cr[i], lr: e.lr[i] };
    let o = operands_of(e, i);
    let n = cons_len(w.instrs[i]);
    lemma_instr(w, i);
    lemma_product_shape(w, i);
    lemma_product_iff(i, c, o, at, 0);
    if rows_conform(w, c, i) {
        assert(constraint_conforms(w, c, i, o[1]));
        assert forall|s: int| 0 <= s < o[1] implies #[trigger] product_row(c, o, at, s) by {
            assert(constraint_conforms(w, c, i, s));
            assert(d.c[at.cr + s] == seq![cell(at.aux + s)]);
        }
        assert(product_rows(c, o, at, 0));
    }
    if product_rows(c, o, at, 0) {
        assert forall|s: int| 0 <= s < n implies #[trigger] constraint_conforms(w, c, i, s) by {
            if s < o[1] {
                assert(product_row(c, o, at, s));
                assert(d.c[at.cr + s] == seq![cell(at.aux + s)]);
            } else {
                assert(s == o[1]);
            }
        }
    }
    assert(instruction_violation(e, c, i) is None <==> product_rows(c, o, at, 0));
}

/// The rows that a convolution compiles to.
proof fn lemma_convolution_shape(w: Compiled, i: int)
    requires
        w.ready(),
        0 <= i < w.instrs.len(),
        w.instrs[i] is Conv,
    ensures
        ({
            let e = w.encoding();
            let d = w.circuit();
            let at = DeltaView { out: e.out[i], aux: e.aux[i], cr: e.cr[i], lr: e.lr[i] };
            let o = operands_of(e, i);
            let side = o[2] + o[3] - 1;
            &&& o[0] == cons_len(w.instrs[i]) - 1
            &&& o[0] >= 0
            &&& lookup_len(w.instrs[i]) == 0
            &&& forall|s: int|
                0 <= s < o[0] ==> {
                    &&& #[trigger] d.c[at.cr + s] == seq![cell(at.aux + s)]
                    &&& d.a[at.cr + s] == plane_row(o[2], side, o[4], s)
                    &&& d.b[at.cr + s] == kernel_row(o[3], o[1], side, o[5], s)
                }
            &&& d.a[at.cr + o[0]] == cells(at.aux, o[0])
            &&& d.b[at.cr + o[0]] == seq![cell(0)]
            &&& d.c[at.cr + o[0]] == graded(at.out, o[1] * side * side)
            &&& instruction_violation(e, d, i) is None
        }),
{
    let e = w.encoding();
    let d = w.circuit();
    let instr = w.instrs[i];
    let (out, aux) = (e.out[i], e.aux[i]);
    let o = operands_of(e, i);
    lemma_instr(w, i);
    lemma_instr_rows(w, i);
    let m = o[0];
    assert(m == cons_len(instr) - 1);
    assert forall|s: int| 0 <= s < m implies {
        &&& #[trigger] d.c[e.cr[i] + s] == c_rows(instr, out, aux)[s]
        &&& d.a[e.cr[i] + s] == a_rows(instr, out, aux)[s]
        &&& d.b[e.cr[i] + s] == b_rows(instr, out, aux)[s]
    } by {
        assert(d.a[e.cr[i] + s] == a_rows(instr, out, aux)[s]);
        assert(d.b[e.cr[i] + s] == b_rows(instr, out, aux)[s]);
    }
    assert(d.c[e.cr[i] + m] == c_rows(instr, out, aux)[m]);
    assert(d.a[e.cr[i] + m] == a_rows(instr, out, aux)[m]);
    assert(d.b[e.cr[i] + m] == b_rows(instr, out, aux)[m]);
    law_compiled(w.instrs, w.weights, w.input_len, w.aux_start, w.table);
    lemma_instruction(e, d, 0, i);
}

/// The rows of a convolution are checked as they should be.
proof fn lemma_convolution(w: Compiled, c: CircuitView, i: int)
    requires
        w.ready(),
        0 <= i < w.instrs.len(),
        w.instrs[i] is Conv,
    ensures
        instruction_violation(w.encoding(), c, i) is None <==> rows_conform(w, c, i),
{
    let e = w.encoding();
    let d = w.circuit();
    let at = DeltaView { out: e.out[i], aux: e.aux[i], cr: e.cr[i], lr: e.lr[i] };
    let o = operands_of(e, i);
    let n = cons_len(w.instrs[i]);
    lemma_instr(w, i);
    lemma_convolution_shape(w, i);
    lemma_convolution_iff(i, c, o, at, 0);
    if rows_conform(w, c, i) {
        assert(constraint_conforms(w, c, i, o[0]));
        assert forall|s: int| 0 <= s < o[0] implies #[trigger] convolution_row(c, o, at, s) by {
            assert(constraint_conforms(w, c, i, s));
            assert(d.c[at.cr + s] == seq![cell(at.aux + s)]);
        }
        assert(convolution_rows(c, o, at, 0));
    }
    if convolution_rows(c, o, at, 0) {
        assert forall|s: int| 0 <= s < n implies #[trigger] constraint_conforms(w, c, i, s) by {
            if s < o[0] {
                assert(convolution_row(c, o, at, s));
                assert(d.c[at.cr + s] == seq![cell(at.aux + s)]);
            } else {
                assert(s == o[0]);
            }
        }
    }
    assert(instruction_violation(e, c, i) is None <==> convolution_rows(c, o, at, 0));
}

/// The rows of the instructions from one on.
spec fn rest_conform(w: Compiled, c: CircuitView, i: int) -> bool {
    forall|k: int| i <= k < w.instrs.len() ==> #[trigger] rows_conform(w, c, k)
}

proof fn lemma_rest(w: Compiled, c: CircuitView, i: int)
    requires
        w.ready(),
        0 <= i <= w.instrs.len(),
    ensures
        instructions_violation(w.encoding(), c, i) is None <==> rest_conform(w, c, i),
    decreases w.instrs.len() - i,
{
    if i < w.instrs.len() {
        lemma_rest(w, c, i + 1);
        if w.instrs[i] is MatMult {
            lemma_product(w, c, i);
        } else if w.instrs[i] is Conv {
            lemma_convolution(w, c, i);
        } else {
            lemma_plain(w, c, i);
        }
        assert(rest_conform(w, c, i) ==> rows_conform(w, c, i));
        if rest_conform(w, c, i + 1) && rows_conform(w, c, i) {
            assert forall|k: int| i <= k < w.instrs.len() implies #[trigger] rows_conform(
                w,
                c,
                k,
            ) by {
                if k > i {
                    assert(i + 1 <= k);
                }
            }
        }
    }
}

/// The circuit has as many rows of each kind, parameters and cells as another one.
pub open spec fn same_sizes(c: CircuitView, d: CircuitView) -> bool {
    &&& c.weight_len == d.weight_len
    &&& c.a.len() == d.a.len()
    &&& c.b.len() == d.b.len()
    &&& c.c.len() == d.c.len()
    &&& c.d.len() == d.d.len()
    &&& c.e.len() == d.e.len()
    &&& c.tp.len() == d.tp.len()
    &&& c.z_len == d.z_len
}

/// Nothing keeps a circuit from being the compilation of a program without errors exactly
/// where it has the sizes of the circuit that the program compiles to, and the rows of that
/// circuit; save for what the plain instructions read, which may be anything that was written
/// before.
pub proof fn law_conforms(w: Compiled, c: CircuitView)
    requires
        w.ready(),
    ensures
        violation(w.encoding(), c) is None <==> {
            &&& same_sizes(c, w.circuit())
            &&& forall|i: int|
                0 <= i < w.instrs.len() ==> #[trigger] rows_conform(w, c, i)
        },
{
    law_compiled(w.instrs, w.weights, w.input_len, w.aux_start, w.table);
    lemma_rest(w, c, 0);
}

/// A violation, if there is one, is by an instruction.
spec fn names(v: Option<Violation>, i: int) -> bool {
    v matches Some(x) ==> x.instr == Some(i)
}

proof fn lemma_read_names(i: int, rule: Seq<char>, row: Seq<Entry>, limit: int, k: int)
    requires
        0 <= k,
    ensures
        names(read_violation(i, rule, row, limit, k), i),
    decreases row.len() - k,
{
    if k < row.len() {
        lemma_read_names(i, rule, row, limit, k + 1);
    }
}

proof fn lemma_product_names(i: int, c: CircuitView, o: Seq<int>, at: DeltaView, r: int)
    ensures
        names(product_violation(i, c, o, at, r), i),
    decreases o[1] - r,
{
    if r < o[1] {
        lemma_product_names(i, c, o, at, r + 1);
    }
}

proof fn lemma_convolution_names(i: int, c: CircuitView, o: Seq<int>, at: DeltaView, r: int)
    ensures
        names(convolution_violation(i, c, o, at, r), i),
    decreases o[0] - r,
{
    if r < o[0] {
        lemma_convolution_names(i, c, o, at, r + 1);
    }
}

proof fn lemma_instruction_names(e: EncodingView, c: CircuitView, i: int)
    ensures
        names(instruction_violation(e, c, i), i),
{
    let o = operands_of(e, i);
    let at = DeltaView { out: e.out[i], aux: e.aux[i], cr: e.cr[i], lr: e.lr[i] };
    match e.opcode[i] {
        Opcode::AddMult => {
            lemma_read_names(i, "AddMult reads"@, c.a[at.cr], at.out, 0);
            lemma_read_names(i, "AddMult reads"@, c.b[at.cr], at.out, 0);
        },
        Opcode::Lookup => {
            lemma_read_names(i, "Lookup reads"@, c.d[at.lr], at.out, 0);
        },
        Opcode::Div => {
            lemma_read_names(i, "Div reads"@, c.a[at.cr], at.out, 0);
            lemma_read_names(i, "Div reads"@, c.b[at.cr], at.out, 0);
        },
        Opcode::MatMult => {
            lemma_product_names(i, c, o, at, 0);
        },
        Opcode::Conv => {
            lemma_convolution_names(i, c, o, at, 0);
        },
    }
}

proof fn lemma_first_names(w: Compiled, c: CircuitView, k: int)
    requires
        w.ready(),
        0 <= k <= w.instrs.len(),
    ensures
        instructions_violation(w.encoding(), c, k) matches Some(v) ==> {
            &&& v.instr is Some
            &&& k <= v.instr->0 < w.instrs.len()
            &&& !rows_conform(w, c, v.instr->0)
            &&& forall|j: int| k <= j < v.instr->0 ==> #[trigger] rows_conform(w, c, j)
        },
    decreases w.instrs.len() - k,
{
    if k < w.instrs.len() {
        lemma_first_names(w, c, k + 1);
        lemma_instruction_names(w.encoding(), c, k);
        if w.instrs[k] is MatMult {
            lemma_product(w, c, k);
        } else if w.instrs[k] is Conv {
            lemma_convolution(w, c, k);
        } else {
            lemma_plain(w, c, k);
        }
        let found = instructions_violation(w.encoding(), c, k);
        if found is Some {
            let v = found->0;
            assert forall|j: int| k <= j < v.instr->0 implies #[trigger] rows_conform(w, c, j) by {
                if j > k {
                    assert(k + 1 <= j);
                }
            }
        }
    }
}

/// What keeps a circuit of the right sizes from being the compilation of a program without
/// errors is told of the first instruction whose rows are not those that it compiles to.
pub proof fn law_first_violation(w: Compiled, c: CircuitView)
    requires
        w.ready(),
        same_sizes(c, w.circuit()),
    ensures
        violation(w.encoding(), c) matches Some(v) ==> {
            &&& v.instr is Some
            &&& 0 <= v.instr->0 < w.instrs.len()
            &&& !rows_conform(w, c, v.instr->0)
            &&& forall|j: int| 0 <= j < v.instr->0 ==> #[trigger] rows_conform(w, c, j)
        },
{
    law_compiled(w.instrs, w.weights, w.input_len, w.aux_start, w.table);
    lemma_first_names(w, c, 0);
}

} // verus!
