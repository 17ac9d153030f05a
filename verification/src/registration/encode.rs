//! The encoding of a program, and the rules that say that a circuit is the
//! compilation of the program that is encoded.
use vstd::prelude::*;
use crate::circuit::{
    Circuit, CircuitView, Entry, LookupType, QUOTIENT_BOUND, SparseRow, entry_of, powered_row,
};
use crate::compiler::{
    Builder, advice_len, aux_at, cell, cells, cons_len, cr_at, graded, kernel_row, left_row,
    lookup_len, lr_at, plane_row, program_fits,
};
use crate::field::{Fr, cong, values};
use crate::instruction::Instruction;
use crate::program::{Program, out_at};
use crate::text::{decimal, labelled, number, then_labelled};

verus! {

/// The number of kinds of instructions.
pub const NUM_OPCODES: usize = 5;

/// The number of operands that an instruction has at most.
pub const NUM_OPERANDS: usize = 6;

/// The kind of an instruction.
#[derive(Debug, Clone, Copy, PartialEq, Eq, Structural)]
pub enum Opcode {
    AddMult,
    Lookup,
    Div,
    MatMult,
    Conv,
}

impl Opcode {
    /// The number of the kind.
    pub open spec fn number(self) -> int {
        match self {
            Opcode::AddMult => 0,
            Opcode::Lookup => 1,
            Opcode::Div => 2,
            Opcode::MatMult => 3,
            Opcode::Conv => 4,
        }
    }

    /// The number of the kind.
    pub fn index(self) -> (out: usize)
        ensures
            out == self.number(),
    {
        match self {
            Opcode::AddMult => 0,
            Opcode::Lookup => 1,
            Opcode::Div => 2,
            Opcode::MatMult => 3,
            Opcode::Conv => 4,
        }
    }
}

/// How many cells and rows an instruction takes.
pub ghost struct DeltaView {
    pub out: int,
    pub aux: int,
    pub cr: int,
    pub lr: int,
}

/// How many output cells, advice cells, constraint rows and lookup rows an
/// instruction takes.
#[derive(Debug, Clone, Copy, PartialEq, Eq, Structural)]
pub struct Deltas {
    pub out: usize,
    pub aux: usize,
    pub cr: usize,
    pub lr: usize,
}

impl View for Deltas {
    type V = DeltaView;

    open spec fn view(&self) -> DeltaView {
        DeltaView {
            out: self.out as int,
            aux: self.aux as int,
            cr: self.cr as int,
            lr: self.lr as int,
        }
    }
}

/// How many cells and rows an instruction with the given kind and operands takes.
pub open spec fn deltas_of(opcode: Opcode, o: Seq<int>) -> DeltaView {
    match opcode {
        Opcode::AddMult => DeltaView { out: 1, aux: 0, cr: 1, lr: 0 },
        Opcode::Lookup => DeltaView { out: 1, aux: 0, cr: 0, lr: 1 },
        Opcode::Div => DeltaView { out: 1, aux: 1, cr: 1, lr: 2 },
        Opcode::MatMult => DeltaView { out: o[0] * o[2], aux: o[1], cr: o[1] + 1, lr: 0 },
        Opcode::Conv => {
            let side = o[2] + o[3] - 1;
            DeltaView { out: o[1] * side * side, aux: o[0], cr: o[0] + 1, lr: 0 }
        },
    }
}

/// The operands of a product or a convolution are no less than zero, and what the
/// instruction takes are words.
pub open spec fn deltas_fit(opcode: Opcode, o: Seq<int>) -> bool {
    let d = deltas_of(opcode, o);
    &&& o.len() >= NUM_OPERANDS
    &&& opcode is MatMult || opcode is Conv ==> forall|j: int|
        0 <= j < NUM_OPERANDS ==> 0 <= #[trigger] o[j] <= i64::MAX && o[j] <= usize::MAX
    &&& opcode is Conv ==> 1 <= o[2] + o[3] <= usize::MAX && o[1] * (o[2] + o[3] - 1) <= usize::MAX
    &&& d.out <= usize::MAX
    &&& d.cr <= usize::MAX
}

/// The integers of a vector.
pub open spec fn words(v: Seq<usize>) -> Seq<int> {
    crate::sparse::indices(v)
}

/// The integers of a vector.
pub open spec fn numbers(v: Seq<i64>) -> Seq<int> {
    v.map_values(|x: i64| x as int)
}

/// The integers of an encoding.
pub ghost struct EncodingView {
    pub opcode: Seq<Opcode>,
    pub sel: Seq<Seq<int>>,
    pub opn: Seq<Seq<int>>,
    pub out: Seq<int>,
    pub aux: Seq<int>,
    pub cr: Seq<int>,
    pub lr: Seq<int>,
    pub weight_len: int,
    pub input_len: int,
    pub aux_start: int,
    pub z_len: int,
    pub cons_line: int,
    pub lu_line: int,
}

/// A program, instruction by instruction: its kind, as a number and as a row of
/// zeros with a single one, its operands, and where its cells and rows start.
///
/// The operand of a lookup is the mark of its type, that of a division the
/// divisor. Those of a product are its three sizes and the starts of its two
/// blocks, those of a convolution its channels, its two sides and the starts of its
/// two blocks. Operands that are not used are zero.
#[derive(Debug, Clone)]
pub struct ProgramEncoding {
    pub opcode: Vec<Opcode>,
    pub sel: Vec<Vec<i64>>,
    pub opn: Vec<Vec<i64>>,
    pub out: Vec<usize>,
    pub aux: Vec<usize>,
    pub cr: Vec<usize>,
    pub lr: Vec<usize>,
    pub weight_len: usize,
    pub input_len: usize,
    pub aux_start: usize,
    pub z_len: usize,
    pub cons_line: usize,
    pub lu_line: usize,
}

/// The integers of some vectors.
pub open spec fn number_rows(v: Seq<Vec<i64>>) -> Seq<Seq<int>> {
    v.map_values(|x: Vec<i64>| numbers(x@))
}

impl View for ProgramEncoding {
    type V = EncodingView;

    open spec fn view(&self) -> EncodingView {
        EncodingView {
            opcode: self.opcode@,
            sel: number_rows(self.sel@),
            opn: number_rows(self.opn@),
            out: words(self.out@),
            aux: words(self.aux@),
            cr: words(self.cr@),
            lr: words(self.lr@),
            weight_len: self.weight_len as int,
            input_len: self.input_len as int,
            aux_start: self.aux_start as int,
            z_len: self.z_len as int,
            cons_line: self.cons_line as int,
            lu_line: self.lu_line as int,
        }
    }
}

/// The operands of instruction `i`.
pub open spec fn operands_of(e: EncodingView, i: int) -> Seq<int> {
    Seq::new(NUM_OPERANDS as nat, |s: int| e.opn[s][i])
}

/// What instruction `i` takes.
pub open spec fn delta_at(e: EncodingView, i: int) -> DeltaView {
    deltas_of(e.opcode[i], operands_of(e, i))
}

/// Where the cells and rows of instruction `i` have to start.
pub open spec fn counters_at(e: EncodingView, i: int) -> DeltaView
    decreases i,
{
    if i <= 0 {
        DeltaView { out: e.weight_len + e.input_len, aux: e.aux_start, cr: 0, lr: 0 }
    } else {
        let c = counters_at(e, i - 1);
        let d = delta_at(e, i - 1);
        DeltaView { out: c.out + d.out, aux: c.aux + d.aux, cr: c.cr + d.cr, lr: c.lr + d.lr }
    }
}

/// The vectors of an encoding hold all its instructions, and its sizes are words.
pub open spec fn encoding_fits(e: EncodingView) -> bool {
    let q = e.opcode.len() as int;
    let last = counters_at(e, q);
    &&& e.opn.len() >= NUM_OPERANDS
    &&& forall|s: int| 0 <= s < NUM_OPERANDS ==> (#[trigger] e.opn[s]).len() >= q
    &&& e.sel.len() == NUM_OPCODES ==> forall|j: int|
        0 <= j < NUM_OPCODES ==> (#[trigger] e.sel[j]).len() >= q
    &&& e.out.len() >= q
    &&& e.aux.len() >= q
    &&& e.cr.len() >= q
    &&& e.lr.len() >= q
    &&& forall|i: int|
        0 <= i < q ==> deltas_fit(#[trigger] e.opcode[i], operands_of(e, i))
    &&& last.out <= usize::MAX
    &&& last.aux <= usize::MAX
    &&& last.cr <= usize::MAX
    &&& last.lr <= usize::MAX
}

/// The counters never go back.
pub proof fn lemma_counters(e: EncodingView, i: int, k: int)
    requires
        encoding_fits(e),
        e.weight_len >= 0,
        e.input_len >= 0,
        e.aux_start >= 0,
        0 <= i <= k <= e.opcode.len(),
    ensures
        0 <= counters_at(e, i).out <= counters_at(e, k).out,
        0 <= counters_at(e, i).aux <= counters_at(e, k).aux,
        0 <= counters_at(e, i).cr <= counters_at(e, k).cr,
        0 <= counters_at(e, i).lr <= counters_at(e, k).lr,
    decreases k,
{
    if k > 0 {
        lemma_delta(e.opcode[k - 1], operands_of(e, k - 1));
        if i < k {
            lemma_counters(e, i, k - 1);
        } else {
            lemma_counters(e, k - 1, k - 1);
        }
    }
}

/// What an instruction takes is no less than zero.
pub proof fn lemma_delta(opcode: Opcode, o: Seq<int>)
    requires
        deltas_fit(opcode, o),
    ensures
        deltas_of(opcode, o).out >= 0,
        deltas_of(opcode, o).aux >= 0,
        deltas_of(opcode, o).cr >= 0,
        deltas_of(opcode, o).lr >= 0,
{
    if opcode is MatMult {
        assert(o[0] >= 0 && o[1] >= 0 && o[2] >= 0);
        assert(o[0] * o[2] >= 0) by (nonlinear_arith)
            requires
                o[0] >= 0,
                o[2] >= 0,
        ;
    }
    if opcode is Conv {
        assert(o[0] >= 0 && o[1] >= 0 && o[2] >= 0 && o[3] >= 0);
        let side = o[2] + o[3] - 1;
        assert(o[1] * side * side >= 0) by (nonlinear_arith)
            requires
                o[1] >= 0,
                side >= 0,
        ;
    }
}

/// The kind of an instruction.
pub open spec fn opcode_of(instr: Instruction) -> Opcode {
    match instr {
        Instruction::AddMult { input1, input2 } => Opcode::AddMult,
        Instruction::Lookup { input, tp } => Opcode::Lookup,
        Instruction::Div { input1, input2, divisor } => Opcode::Div,
        Instruction::MatMult { m, n, k, start1, start2 } => Opcode::MatMult,
        Instruction::Conv { n, m, in_channels, out_channels, start1, start2 } => Opcode::Conv,
    }
}

/// The operands of an instruction.
pub open spec fn instr_operands(instr: Instruction) -> Seq<int> {
    match instr {
        Instruction::AddMult { input1, input2 } => seq![0, 0, 0, 0, 0, 0],
        Instruction::Lookup { input, tp } => seq![tp.tag_of(), 0, 0, 0, 0, 0],
        Instruction::Div { input1, input2, divisor } => seq![divisor as int, 0, 0, 0, 0, 0],
        Instruction::MatMult { m, n, k, start1, start2 } => seq![
            m as int,
            n as int,
            k as int,
            start1 as int,
            start2 as int,
            0,
        ],
        Instruction::Conv { n, m, in_channels, out_channels, start1, start2 } => seq![
            in_channels as int,
            out_channels as int,
            n as int,
            m as int,
            start1 as int,
            start2 as int,
        ],
    }
}

/// The operands of all the instructions are words with a sign.
pub open spec fn encodable(instrs: Seq<Instruction>) -> bool {
    forall|i: int, s: int|
        0 <= i < instrs.len() && 0 <= s < NUM_OPERANDS ==> i64::MIN
            <= #[trigger] instr_operands(instrs[i])[s] <= i64::MAX
}

/// The encoding of a program.
pub open spec fn encoding_of(
    instrs: Seq<Instruction>,
    weight_len: int,
    input_len: int,
    aux_start: int,
) -> EncodingView {
    let q = instrs.len();
    let start = weight_len + input_len;
    EncodingView {
        opcode: instrs.map_values(|x: Instruction| opcode_of(x)),
        sel: Seq::new(
            NUM_OPCODES as nat,
            |j: int|
                Seq::new(
                    q,
                    |i: int| if opcode_of(instrs[i]).number() == j {
                        1int
                    } else {
                        0
                    },
                ),
        ),
        opn: Seq::new(
            NUM_OPERANDS as nat,
            |s: int| Seq::new(q, |i: int| instr_operands(instrs[i])[s]),
        ),
        out: Seq::new(q, |i: int| out_at(instrs, start, i)),
        aux: Seq::new(q, |i: int| aux_at(instrs, aux_start, i)),
        cr: Seq::new(q, |i: int| cr_at(instrs, i)),
        lr: Seq::new(q, |i: int| lr_at(instrs, i)),
        weight_len,
        input_len,
        aux_start,
        z_len: aux_at(instrs, aux_start, q as int),
        cons_line: cr_at(instrs, q as int),
        lu_line: lr_at(instrs, q as int),
    }
}

/// An instruction takes what its kind and its operands say.
pub proof fn law_deltas_of_instruction(instr: Instruction)
    ensures
        deltas_of(opcode_of(instr), instr_operands(instr)) == (DeltaView {
            out: instr.outputs(),
            aux: advice_len(instr),
            cr: cons_len(instr),
            lr: lookup_len(instr),
        }),
{
}

impl ProgramEncoding {
    /// The number of instructions.
    pub fn len(&self) -> (out: usize)
        ensures
            out == self@.opcode.len(),
    {
        self.opcode.len()
    }

    /// Whether there is no instruction.
    pub fn is_empty(&self) -> (out: bool)
        ensures
            out == (self@.opcode.len() == 0),
    {
        self.opcode.len() == 0
    }

    /// How many cells and rows an instruction with the given kind and operands
    /// takes.
    pub fn deltas(opcode: Opcode, opn: &[i64]) -> (out: Deltas)
        requires
            deltas_fit(opcode, numbers(opn@)),
        ensures
            out@ == deltas_of(opcode, numbers(opn@)),
    {
        let ghost o = numbers(opn@);
        match opcode {
            Opcode::AddMult => Deltas { out: 1, aux: 0, cr: 1, lr: 0 },
            Opcode::Lookup => Deltas { out: 1, aux: 0, cr: 0, lr: 1 },
            Opcode::Div => Deltas { out: 1, aux: 1, cr: 1, lr: 2 },
            Opcode::MatMult => {
                proof {
                    lemma_delta(opcode, o);
                    assert(0 <= o[0] <= usize::MAX && 0 <= o[1] <= usize::MAX && 0 <= o[2]
                        <= usize::MAX);
                }
                let m: usize = opn[0] as usize;
                let n: usize = opn[1] as usize;
                let k: usize = opn[2] as usize;
                Deltas { out: m * k, aux: n, cr: n + 1, lr: 0 }
            },
            Opcode::Conv => {
                proof {
                    lemma_delta(opcode, o);
                    assert(0 <= o[0] <= usize::MAX && 0 <= o[1] <= usize::MAX && 0 <= o[2]
                        <= usize::MAX && 0 <= o[3] <= usize::MAX);
                    let side = o[2] + o[3] - 1;
                    assert(0 <= o[1] * side) by (nonlinear_arith)
                        requires
                            o[1] >= 0,
                            side >= 0,
                    ;
                }
                let ins: usize = opn[0] as usize;
                let outs: usize = opn[1] as usize;
                let n: usize = opn[2] as usize;
                let m: usize = opn[3] as usize;
                let side: usize = n + m - 1;
                Deltas { out: outs * side * side, aux: ins, cr: ins + 1, lr: 0 }
            },
        }
    }

    /// The operands of instruction `i`.
    pub fn operands(&self, i: usize) -> (out: Vec<i64>)
        requires
            self@.opn.len() >= NUM_OPERANDS,
            forall|s: int| 0 <= s < NUM_OPERANDS ==> i < (#[trigger] self@.opn[s]).len(),
        ensures
            numbers(out@) == operands_of(self@, i as int),
    {
        let mut out: Vec<i64> = Vec::new();
        let ghost e = self@;
        for s in 0..NUM_OPERANDS
            invariant
                e == self@,
                e.opn.len() >= NUM_OPERANDS,
                forall|s: int| 0 <= s < NUM_OPERANDS ==> i < (#[trigger] e.opn[s]).len(),
                out.len() == s,
                forall|t: int| 0 <= t < s ==> (#[trigger] out[t]) as int == e.opn[t][i as int],
        {
            assert(e.opn[s as int] == numbers(self.opn[s as int]@));
            out.push(self.opn[s][i]);
        }
        assert(numbers(out@) =~= operands_of(e, i as int));
        out
    }

    /// The operands of instruction `i`.
    pub fn operands_i64(&self, i: usize) -> (out: Vec<i64>)
        requires
            self@.opn.len() >= NUM_OPERANDS,
            forall|s: int| 0 <= s < NUM_OPERANDS ==> i < (#[trigger] self@.opn[s]).len(),
        ensures
            numbers(out@) == operands_of(self@, i as int),
    {
        self.operands(i)
    }

    /// The encoding of a program.
    pub fn from_program(program: &Program, input_len: usize, aux_start: usize) -> (out:
        ProgramEncoding)
        requires
            program_fits(
                program.code(),
                program.params().len() + input_len,
                aux_start as int,
            ),
            encodable(program.code()),
        ensures
            out@ == encoding_of(
                program.code(),
                program.params().len() as int,
                input_len as int,
                aux_start as int,
            ),
    {
        let ghost instrs = program.code();
        let weight_len: usize = program.weight_len();
        let code = program.instructions();
        let q: usize = code.len();
        let ghost start = weight_len + input_len;
        let ghost want = encoding_of(
            instrs,
            weight_len as int,
            input_len as int,
            aux_start as int,
        );
        let mut opcode: Vec<Opcode> = Vec::new();
        let mut opn: Vec<Vec<i64>> = Vec::new();
        let mut out: Vec<usize> = Vec::new();
        let mut aux: Vec<usize> = Vec::new();
        let mut cr: Vec<usize> = Vec::new();
        let mut lr: Vec<usize> = Vec::new();
        let mut columns: Vec<Vec<i64>> = Vec::new();
        assert(out_at(instrs, start as int, 0) <= usize::MAX);
        let mut out_cur: usize = weight_len + input_len;
        let mut aux_cur: usize = aux_start;
        let mut cr_cur: usize = 0;
        let mut lr_cur: usize = 0;
        for i in 0..q
            invariant
                instrs == code@,
                q == instrs.len(),
                start == weight_len + input_len,
                program_fits(instrs, start as int, aux_start as int),
                encodable(instrs),
                opcode.len() == i,
                out.len() == i,
                aux.len() == i,
                cr.len() == i,
                lr.len() == i,
                columns.len() == i,
                out_cur == out_at(instrs, start as int, i as int),
                aux_cur == aux_at(instrs, aux_start as int, i as int),
                cr_cur == cr_at(instrs, i as int),
                lr_cur == lr_at(instrs, i as int),
                forall|j: int| 0 <= j < i ==> (#[trigger] opcode[j]) == opcode_of(instrs[j]),
                forall|j: int|
                    0 <= j < i ==> numbers((#[trigger] columns[j])@) == instr_operands(instrs[j]),
                forall|j: int|
                    0 <= j < i ==> (#[trigger] out[j]) as int == out_at(instrs, start as int, j),
                forall|j: int|
                    0 <= j < i ==> (#[trigger] aux[j]) as int == aux_at(
                        instrs,
                        aux_start as int,
                        j,
                    ),
                forall|j: int| 0 <= j < i ==> (#[trigger] cr[j]) as int == cr_at(instrs, j),
                forall|j: int| 0 <= j < i ==> (#[trigger] lr[j]) as int == lr_at(instrs, j),
        {
            let ghost instr = instrs[i as int];
            proof {
                let o = instr_operands(instr);
                assert forall|s: int| 0 <= s < NUM_OPERANDS implies i64::MIN <= #[trigger] o[s]
                    <= i64::MAX by {
                    assert(i64::MIN <= instr_operands(instrs[i as int])[s] <= i64::MAX);
                }
                assert(o[0] <= i64::MAX && o[1] <= i64::MAX && o[2] <= i64::MAX && o[3]
                    <= i64::MAX && o[4] <= i64::MAX && o[5] <= i64::MAX && o[0] >= i64::MIN);
                law_deltas_of_instruction(instr);
                assert(crate::compiler::operands_fit(instr));
                assert(out_at(instrs, start as int, i + 1) <= usize::MAX);
                assert(aux_at(instrs, aux_start as int, i + 1) <= usize::MAX);
                assert(cr_at(instrs, i + 1) <= usize::MAX);
                assert(lr_at(instrs, i + 1) <= usize::MAX);
            }
            let coded = encode_instruction(&code[i]);
            opcode.push(coded.0);
            out.push(out_cur);
            aux.push(aux_cur);
            cr.push(cr_cur);
            lr.push(lr_cur);
            proof {
                lemma_instruction_deltas_fit(instr);
                lemma_delta(opcode_of(instr), instr_operands(instr));
                lemma_starts(instrs, start as int, aux_start as int, i as int);
            }
            let d = ProgramEncoding::deltas(coded.0, coded.1.as_slice());
            columns.push(coded.1);
            out_cur = out_cur + d.out;
            aux_cur = aux_cur + d.aux;
            cr_cur = cr_cur + d.cr;
            lr_cur = lr_cur + d.lr;
        }
        let sel = selectors(&opcode);
        let opn = transposed(&columns);
        let enc = ProgramEncoding {
            opcode,
            sel,
            opn,
            out,
            aux,
            cr,
            lr,
            weight_len,
            input_len,
            aux_start,
            z_len: aux_cur,
            cons_line: cr_cur,
            lu_line: lr_cur,
        };
        proof {
            assert(enc@.opcode =~= want.opcode);
            assert forall|j: int| 0 <= j < NUM_OPCODES implies #[trigger] enc@.sel[j]
                == want.sel[j] by {
                assert(enc@.sel[j] =~= want.sel[j]);
            }
            assert(enc@.sel =~= want.sel);
            assert forall|s: int| 0 <= s < NUM_OPERANDS implies #[trigger] enc@.opn[s]
                == want.opn[s] by {
                assert forall|i: int| 0 <= i < q implies #[trigger] enc@.opn[s][i]
                    == want.opn[s][i] by {
                    assert(numbers(columns[i]@)[s] == instr_operands(instrs[i])[s]);
                }
                assert(enc@.opn[s] =~= want.opn[s]);
            }
            assert(enc@.opn =~= want.opn);
            assert(enc@.out =~= want.out);
            assert(enc@.aux =~= want.aux);
            assert(enc@.cr =~= want.cr);
            assert(enc@.lr =~= want.lr);
        }
        enc
    }
}

/// The starts of the cells and rows are no less than zero.
proof fn lemma_starts(instrs: Seq<Instruction>, start: int, aux_start: int, i: int)
    requires
        program_fits(instrs, start, aux_start),
        0 <= start,
        0 <= aux_start,
        0 <= i <= instrs.len(),
    ensures
        0 <= out_at(instrs, start, i),
        0 <= aux_at(instrs, aux_start, i),
        0 <= cr_at(instrs, i),
        0 <= lr_at(instrs, i),
    decreases i,
{
    if i > 0 {
        lemma_starts(instrs, start, aux_start, i - 1);
        let instr = instrs[i - 1];
        assert(crate::compiler::operands_fit(instr));
        lemma_outputs(instr);
    }
}

proof fn lemma_outputs(instr: Instruction)
    requires
        crate::compiler::operands_fit(instr),
    ensures
        instr.outputs() >= 0,
{
    match instr {
        Instruction::MatMult { m, n, k, start1, start2 } => {
            assert(m * k >= 0) by (nonlinear_arith)
                requires
                    m >= 0,
                    k >= 0,
            ;
        },
        Instruction::Conv { n, m, in_channels, out_channels, start1, start2 } => {
            let side = n + m - 1;
            assert(out_channels * side * side >= 0) by (nonlinear_arith)
                requires
                    out_channels >= 0,
                    side >= 0,
            ;
        },
        _ => {},
    }
}

/// The operands of an instruction whose sizes are words fit.
pub proof fn lemma_instruction_deltas_fit(instr: Instruction)
    requires
        crate::compiler::operands_fit(instr),
        cons_len(instr) <= usize::MAX,
        forall|s: int|
            0 <= s < NUM_OPERANDS ==> i64::MIN <= #[trigger] instr_operands(instr)[s] <= i64::MAX,
    ensures
        deltas_fit(opcode_of(instr), instr_operands(instr)),
{
    let o = instr_operands(instr);
    assert forall|j: int|
        0 <= j < NUM_OPERANDS && (instr is MatMult || instr is Conv) implies 0 <= #[trigger] o[j]
        <= i64::MAX && o[j] <= usize::MAX by {
        assert(instr_operands(instr)[j] <= i64::MAX);
    }
}

fn encode_instruction(instr: &Instruction) -> (out: (Opcode, Vec<i64>))
    requires
        forall|s: int|
            0 <= s < NUM_OPERANDS ==> i64::MIN <= #[trigger] instr_operands(*instr)[s] <= i64::MAX,
    ensures
        out.0 == opcode_of(*instr),
        numbers(out.1@) == instr_operands(*instr),
{
    let ghost o = instr_operands(*instr);
    assert(i64::MIN <= o[0] <= i64::MAX && o[1] <= i64::MAX && o[2] <= i64::MAX && o[3] <= i64::MAX
        && o[4] <= i64::MAX && o[5] <= i64::MAX);
    let (code, a, b, c, d, e, f): (Opcode, i64, i64, i64, i64, i64, i64) = match instr {
        Instruction::AddMult { input1, input2 } => (Opcode::AddMult, 0, 0, 0, 0, 0, 0),
        Instruction::Lookup { input, tp } => (Opcode::Lookup, tp.tag(), 0, 0, 0, 0, 0),
        Instruction::Div { input1, input2, divisor } => (Opcode::Div, *divisor, 0, 0, 0, 0, 0),
        Instruction::MatMult { m, n, k, start1, start2 } => (
            Opcode::MatMult,
            *m as i64,
            *n as i64,
            *k as i64,
            *start1 as i64,
            *start2 as i64,
            0,
        ),
        Instruction::Conv { n, m, in_channels, out_channels, start1, start2 } => (
            Opcode::Conv,
            *in_channels as i64,
            *out_channels as i64,
            *n as i64,
            *m as i64,
            *start1 as i64,
            *start2 as i64,
        ),
    };
    let mut ops: Vec<i64> = Vec::new();
    ops.push(a);
    ops.push(b);
    ops.push(c);
    ops.push(d);
    ops.push(e);
    ops.push(f);
    assert(numbers(ops@) =~= o);
    (code, ops)
}

fn selectors(opcode: &Vec<Opcode>) -> (sel: Vec<Vec<i64>>)
    ensures
        sel.len() == NUM_OPCODES,
        forall|j: int| 0 <= j < NUM_OPCODES ==> (#[trigger] sel[j]).len() == opcode.len(),
        forall|j: int, i: int|
            0 <= j < NUM_OPCODES && 0 <= i < opcode.len() ==> (#[trigger] sel[j][i]) == (
            if opcode[i].number() == j {
                1i64
            } else {
                0
            }),
{
    let mut sel: Vec<Vec<i64>> = Vec::new();
    for j in 0..NUM_OPCODES
        invariant
            sel.len() == j,
            forall|l: int| 0 <= l < j ==> (#[trigger] sel[l]).len() == opcode.len(),
            forall|l: int, i: int|
                0 <= l < j && 0 <= i < opcode.len() ==> (#[trigger] sel[l][i]) == (
                if opcode[i].number() == l {
                    1i64
                } else {
                    0
                }),
    {
        let mut row: Vec<i64> = Vec::new();
        for i in 0..opcode.len()
            invariant
                row.len() == i,
                forall|l: int|
                    0 <= l < i ==> (#[trigger] row[l]) == (if opcode[l].number() == j {
                        1i64
                    } else {
                        0
                    }),
        {
            row.push(
                if opcode[i].index() == j {
                    1
                } else {
                    0
                },
            );
        }
        sel.push(row);
    }
    sel
}

fn transposed(columns: &Vec<Vec<i64>>) -> (rows: Vec<Vec<i64>>)
    requires
        forall|i: int|
            0 <= i < columns.len() ==> numbers((#[trigger] columns[i])@).len() == NUM_OPERANDS,
    ensures
        rows.len() == NUM_OPERANDS,
        forall|s: int| 0 <= s < NUM_OPERANDS ==> (#[trigger] rows[s]).len() == columns.len(),
        forall|s: int, i: int|
            0 <= s < NUM_OPERANDS && 0 <= i < columns.len() ==> (#[trigger] rows[s][i])
                == columns[i][s],
{
    let mut rows: Vec<Vec<i64>> = Vec::new();
    for s in 0..NUM_OPERANDS
        invariant
            forall|i: int|
                0 <= i < columns.len() ==> numbers((#[trigger] columns[i])@).len() == NUM_OPERANDS,
            rows.len() == s,
            forall|t: int| 0 <= t < s ==> (#[trigger] rows[t]).len() == columns.len(),
            forall|t: int, i: int|
                0 <= t < s && 0 <= i < columns.len() ==> (#[trigger] rows[t][i]) == columns[i][t],
    {
        let mut row: Vec<i64> = Vec::new();
        for i in 0..columns.len()
            invariant
                s < NUM_OPERANDS,
                forall|i: int|
                    0 <= i < columns.len() ==> numbers((#[trigger] columns[i])@).len()
                        == NUM_OPERANDS,
                row.len() == i,
                forall|l: int| 0 <= l < i ==> (#[trigger] row[l]) == columns[l][s as int],
        {
            assert(numbers(columns[i as int]@).len() == columns[i as int].len());
            row.push(columns[i][s]);
        }
        rows.push(row);
    }
    rows
}

/// A rule that is broken: by which instruction, if it is one, and what shows it.
pub ghost struct Violation {
    pub instr: Option<int>,
    pub rule: Seq<char>,
    pub detail: Seq<char>,
}

/// A rule that a circuit breaks, and what shows it.
#[derive(Debug, Clone, PartialEq, Eq)]
pub struct RuleViolation {
    pub instr: Option<usize>,
    pub rule: &'static str,
    pub detail: String,
}

impl View for RuleViolation {
    type V = Violation;

    open spec fn view(&self) -> Violation {
        Violation {
            instr: match self.instr {
                Some(i) => Some(i as int),
                None => None,
            },
            rule: self.rule@,
            detail: self.detail@,
        }
    }
}

/// A violation in words.
pub open spec fn violation_text(v: Violation) -> Seq<char> {
    match v.instr {
        Some(i) => "instruction "@ + decimal(i) + ": "@ + v.rule + " ("@ + v.detail + ")"@,
        None => v.rule + " ("@ + v.detail + ")"@,
    }
}

impl RuleViolation {
    /// The violation in words.
    pub fn text(&self) -> (out: String)
        ensures
            out@ == violation_text(self@),
    {
        let head = match self.instr {
            Some(i) => labelled("instruction ", i as i128).concat(": ").concat(self.rule),
            None => self.rule.to_owned(),
        };
        head.concat(" (").concat(self.detail.as_str()).concat(")")
    }
}

/// What a check found.
pub open spec fn verdict(r: Result<(), RuleViolation>) -> Option<Violation> {
    match r {
        Ok(_) => None,
        Err(v) => Some(v@),
    }
}

/// The first of two violations.
pub open spec fn either(a: Option<Violation>, b: Option<Violation>) -> Option<Violation> {
    match a {
        Some(v) => Some(v),
        None => b,
    }
}

/// A violation by an instruction.
pub open spec fn broken(i: int, rule: Seq<char>, detail: Seq<char>) -> Option<Violation> {
    Some(Violation { instr: Some(i), rule, detail })
}

/// A violation by the whole.
pub open spec fn broken_whole(rule: Seq<char>, detail: Seq<char>) -> Option<Violation> {
    Some(Violation { instr: None, rule, detail })
}

/// Reports a violation.
pub fn fail<T>(instr: Option<usize>, rule: &'static str, detail: String) -> (out: Result<
    T,
    RuleViolation,
>)
    ensures
        out == Err::<T, RuleViolation>(RuleViolation { instr, rule, detail }),
{
    Err(RuleViolation { instr, rule, detail })
}

/// The coefficients of the first `n` entries of a row that have the given column
/// and power, in order.
pub open spec fn picked(row: Seq<Entry>, col: int, pow: int, n: int) -> Seq<int>
    decreases n,
{
    if n <= 0 {
        Seq::empty()
    } else if row[n - 1].col == col && row[n - 1].pow == pow {
        picked(row, col, pow, n - 1).push(row[n - 1].val)
    } else {
        picked(row, col, pow, n - 1)
    }
}

/// Two sequences are the same field elements.
pub open spec fn same_elements(a: Seq<int>, b: Seq<int>) -> bool {
    &&& a.len() == b.len()
    &&& forall|i: int| 0 <= i < a.len() ==> cong(#[trigger] a[i], b[i])
}

/// Two rows have the same coefficients in each column, for each power.
pub open spec fn rows_agree(a: Seq<Entry>, b: Seq<Entry>) -> bool {
    forall|col: int, pow: int|
        same_elements(
            #[trigger] picked(a, col, pow, a.len() as int),
            picked(b, col, pow, b.len() as int),
        )
}

proof fn lemma_picked_same(a: Seq<Entry>, b: Seq<Entry>, col: int, pow: int, n: int)
    requires
        n <= a.len(),
        n <= b.len(),
        forall|i: int|
            0 <= i < n ==> (#[trigger] a[i]).col == b[i].col && a[i].pow == b[i].pow && cong(
                a[i].val,
                b[i].val,
            ),
    ensures
        same_elements(picked(a, col, pow, n), picked(b, col, pow, n)),
    decreases n,
{
    if n > 0 {
        lemma_picked_same(a, b, col, pow, n - 1);
        assert(a[n - 1].col == b[n - 1].col);
    }
}

/// Equal rows agree.
pub proof fn lemma_rows_agree(a: Seq<Entry>)
    ensures
        rows_agree(a, a),
{
    assert forall|col: int, pow: int|
        same_elements(
            #[trigger] picked(a, col, pow, a.len() as int),
            picked(a, col, pow, a.len() as int),
        ) by {
        lemma_picked_same(a, a, col, pow, a.len() as int);
    }
}

/// What is picked comes from an entry.
proof fn lemma_picked_from(row: Seq<Entry>, col: int, pow: int, n: int) -> (i: int)
    requires
        0 <= n <= row.len(),
        picked(row, col, pow, n).len() > 0,
    ensures
        0 <= i < n,
        row[i].col == col,
        row[i].pow == pow,
    decreases n,
{
    if row[n - 1].col == col && row[n - 1].pow == pow {
        n - 1
    } else {
        lemma_picked_from(row, col, pow, n - 1)
    }
}

fn power_word(p: Option<usize>) -> (out: usize)
    ensures
        out == (match p {
            Some(e) => e,
            None => 0,
        }),
{
    match p {
        Some(e) => e,
        None => 0,
    }
}

fn pick_row(row: &SparseRow, col: usize, pow: usize) -> (out: Vec<Fr>)
    ensures
        values(out@) == picked(row@, col as int, pow as int, row@.len() as int),
{
    let mut out: Vec<Fr> = Vec::new();
    let ghost r = row@;
    assert(values(out@) =~= Seq::<int>::empty());
    for i in 0..row.elems.len()
        invariant
            r == row@,
            values(out@) == picked(r, col as int, pow as int, i as int),
    {
        let e = row.elems[i];
        assert(r[i as int] == entry_of(e));
        if e.0 == col && power_word(e.2) == pow {
            let ghost before = values(out@);
            out.push(e.1);
            assert(values(out@) =~= before.push(e.1@));
        }
    }
    out
}

fn pick_want(want: &Vec<(usize, i64, Option<usize>)>, col: usize, pow: usize) -> (out: Vec<Fr>)
    ensures
        values(out@) == picked(
            powered_row(want@),
            col as int,
            pow as int,
            want.len() as int,
        ),
{
    let mut out: Vec<Fr> = Vec::new();
    let ghost r = powered_row(want@);
    assert(values(out@) =~= Seq::<int>::empty());
    for i in 0..want.len()
        invariant
            r == powered_row(want@),
            values(out@) == picked(r, col as int, pow as int, i as int),
    {
        let e = want[i];
        if e.0 == col && power_word(e.2) == pow {
            let ghost before = values(out@);
            let x = Fr::from_i64(e.1);
            out.push(x);
            assert(values(out@) =~= before.push(x@));
        }
    }
    out
}

fn same_elements_exec(a: &Vec<Fr>, b: &Vec<Fr>) -> (out: bool)
    ensures
        out == same_elements(values(a@), values(b@)),
{
    if a.len() != b.len() {
        assert(values(a@).len() == a.len() && values(b@).len() == b.len());
        return false;
    }
    let ghost av = values(a@);
    let ghost bv = values(b@);
    for i in 0..a.len()
        invariant
            a.len() == b.len(),
            av == values(a@),
            bv == values(b@),
            forall|j: int| 0 <= j < i ==> cong(#[trigger] av[j], bv[j]),
    {
        if !(a[i] == b[i]) {
            assert(!cong(av[i as int], bv[i as int]));
            return false;
        }
    }
    true
}

fn rows_agree_exec(row: &SparseRow, want: &Vec<(usize, i64, Option<usize>)>) -> (out: bool)
    ensures
        out == rows_agree(row@, powered_row(want@)),
{
    let ghost a = row@;
    let ghost b = powered_row(want@);
    if in_order(row, want) {
        proof {
            assert forall|col: int, pow: int|
                same_elements(
                    #[trigger] picked(a, col, pow, a.len() as int),
                    picked(b, col, pow, b.len() as int),
                ) by {
                lemma_picked_same(a, b, col, pow, a.len() as int);
            }
        }
        return true;
    }
    for i in 0..row.elems.len()
        invariant
            a == row@,
            b == powered_row(want@),
            forall|j: int|
                0 <= j < i ==> same_elements(
                    picked(a, (#[trigger] a[j]).col, a[j].pow, a.len() as int),
                    picked(b, a[j].col, a[j].pow, b.len() as int),
                ),
    {
        let e = row.elems[i];
        assert(a[i as int] == entry_of(e));
        let p = power_word(e.2);
        if !same_elements_exec(&pick_row(row, e.0, p), &pick_want(want, e.0, p)) {
            assert(!same_elements(
                picked(a, e.0 as int, p as int, a.len() as int),
                picked(b, e.0 as int, p as int, b.len() as int),
            ));
            return false;
        }
    }
    for i in 0..want.len()
        invariant
            a == row@,
            b == powered_row(want@),
            forall|j: int|
                0 <= j < i ==> same_elements(
                    picked(a, (#[trigger] b[j]).col, b[j].pow, a.len() as int),
                    picked(b, b[j].col, b[j].pow, b.len() as int),
                ),
    {
        let e = want[i];
        let p = power_word(e.2);
        if !same_elements_exec(&pick_row(row, e.0, p), &pick_want(want, e.0, p)) {
            assert(!same_elements(
                picked(a, e.0 as int, p as int, a.len() as int),
                picked(b, e.0 as int, p as int, b.len() as int),
            ));
            return false;
        }
    }
    proof {
        assert forall|col: int, pow: int|
            same_elements(
                #[trigger] picked(a, col, pow, a.len() as int),
                picked(b, col, pow, b.len() as int),
            ) by {
            if picked(a, col, pow, a.len() as int).len() > 0 {
                let i = lemma_picked_from(a, col, pow, a.len() as int);
                assert(a[i].col == col);
            } else if picked(b, col, pow, b.len() as int).len() > 0 {
                let i = lemma_picked_from(b, col, pow, b.len() as int);
                assert(b[i].col == col);
            }
        }
    }
    true
}

fn in_order(row: &SparseRow, want: &Vec<(usize, i64, Option<usize>)>) -> (out: bool)
    ensures
        out ==> row@.len() == want.len() && forall|i: int|
            0 <= i < want.len() ==> (#[trigger] row@[i]).col == powered_row(want@)[i].col
                && row@[i].pow == powered_row(want@)[i].pow && cong(
                row@[i].val,
                powered_row(want@)[i].val,
            ),
{
    if row.elems.len() != want.len() {
        return false;
    }
    let ghost a = row@;
    let ghost b = powered_row(want@);
    for i in 0..want.len()
        invariant
            row.elems.len() == want.len(),
            a == row@,
            b == powered_row(want@),
            forall|j: int|
                0 <= j < i ==> (#[trigger] a[j]).col == b[j].col && a[j].pow == b[j].pow && cong(
                    a[j].val,
                    b[j].val,
                ),
    {
        let e = row.elems[i];
        let w = want[i];
        assert(a[i as int] == entry_of(e));
        if !(e.0 == w.0 && power_word(e.2) == power_word(w.2) && e.1 == Fr::from_i64(w.1)) {
            return false;
        }
    }
    true
}

/// What is wrong with a row that has to agree with another, if anything.
pub open spec fn row_violation(
    i: int,
    rule: Seq<char>,
    row: Seq<Entry>,
    want: Seq<Entry>,
) -> Option<Violation> {
    if rows_agree(row, want) {
        None
    } else {
        broken(
            i,
            rule,
            "expected "@ + decimal(want.len() as int) + " entries, found "@ + decimal(
                row.len() as int,
            ),
        )
    }
}

fn expect_row(
    instr: usize,
    rule: &'static str,
    row: &SparseRow,
    want: &Vec<(usize, i64, Option<usize>)>,
) -> (out: Result<(), RuleViolation>)
    ensures
        verdict(out) == row_violation(instr as int, rule@, row@, powered_row(want@)),
{
    if rows_agree_exec(row, want) {
        Ok(())
    } else {
        assert(row@.len() == row.elems.len());
        let text = labelled("expected ", want.len() as i128);
        fail(
            Some(instr),
            rule,
            then_labelled(text, " entries, found ", row.elems.len() as i128),
        )
    }
}

/// The first cell from entry `k` on that a row reads at or past a limit.
pub open spec fn read_violation(
    i: int,
    rule: Seq<char>,
    row: Seq<Entry>,
    limit: int,
    k: int,
) -> Option<Violation>
    decreases row.len() - k,
{
    if k >= row.len() {
        None
    } else if row[k].col >= limit {
        broken(
            i,
            rule,
            "reads z["@ + decimal(row[k].col) + "] with only z[.."@ + decimal(limit)
                + "] available"@,
        )
    } else {
        read_violation(i, rule, row, limit, k + 1)
    }
}

fn check_reads(instr: usize, rule: &'static str, row: &SparseRow, limit: usize) -> (out: Result<
    (),
    RuleViolation,
>)
    ensures
        verdict(out) == read_violation(instr as int, rule@, row@, limit as int, 0),
{
    let ghost r = row@;
    for k in 0..row.elems.len()
        invariant
            r == row@,
            read_violation(instr as int, rule@, r, limit as int, 0) == read_violation(
                instr as int,
                rule@,
                r,
                limit as int,
                k as int,
            ),
    {
        let col: usize = row.elems[k].0;
        assert(r[k as int].col == col);
        if col >= limit {
            let text = labelled("reads z[", col as i128);
            let text = then_labelled(text, "] with only z[..", limit as i128);
            return fail(Some(instr), rule, text.concat("] available"));
        }
    }
    Ok(())
}

/// What is wrong with the shape of a circuit, if anything.
pub open spec fn shape_violation(e: EncodingView, c: CircuitView) -> Option<Violation> {
    if c.weight_len != e.weight_len {
        broken_whole(
            "weight length"@,
            "circuit "@ + decimal(c.weight_len) + " vs program "@ + decimal(e.weight_len),
        )
    } else if c.a.len() != e.cons_line || c.b.len() != e.cons_line || c.c.len() != e.cons_line {
        broken_whole(
            "constraint row count"@,
            "a="@ + decimal(c.a.len() as int) + " b="@ + decimal(c.b.len() as int) + " c="@
                + decimal(c.c.len() as int) + " expected "@ + decimal(e.cons_line),
        )
    } else if c.d.len() != e.lu_line || c.e.len() != e.lu_line || c.tp.len() != e.lu_line {
        broken_whole(
            "lookup row count"@,
            "d="@ + decimal(c.d.len() as int) + " e="@ + decimal(c.e.len() as int) + " tp="@
                + decimal(c.tp.len() as int) + " expected "@ + decimal(e.lu_line),
        )
    } else if c.z_len != e.z_len {
        broken_whole(
            "witness length"@,
            "circuit "@ + decimal(c.z_len) + " vs program "@ + decimal(e.z_len),
        )
    } else {
        None
    }
}

fn check_shape(enc: &ProgramEncoding, circuit: &Circuit) -> (out: Result<(), RuleViolation>)
    ensures
        verdict(out) == shape_violation(enc@, circuit@),
{
    let ghost c = circuit@;
    if circuit.weight_len != enc.weight_len {
        let text = labelled("circuit ", circuit.weight_len as i128);
        return fail(
            None,
            "weight length",
            then_labelled(text, " vs program ", enc.weight_len as i128),
        );
    }
    let a: usize = circuit.a.len();
    let b: usize = circuit.b.len();
    let cc: usize = circuit.c.len();
    if a != enc.cons_line || b != enc.cons_line || cc != enc.cons_line {
        let text = labelled("a=", a as i128);
        let text = then_labelled(text, " b=", b as i128);
        let text = then_labelled(text, " c=", cc as i128);
        return fail(
            None,
            "constraint row count",
            then_labelled(text, " expected ", enc.cons_line as i128),
        );
    }
    let d: usize = circuit.d.len();
    let e: usize = circuit.e.len();
    let t: usize = circuit.tp.len();
    assert(c.tp.len() == t);
    if d != enc.lu_line || e != enc.lu_line || t != enc.lu_line {
        let text = labelled("d=", d as i128);
        let text = then_labelled(text, " e=", e as i128);
        let text = then_labelled(text, " tp=", t as i128);
        return fail(
            None,
            "lookup row count",
            then_labelled(text, " expected ", enc.lu_line as i128),
        );
    }
    if circuit.z_len != enc.z_len {
        let text = labelled("circuit ", circuit.z_len as i128);
        return fail(
            None,
            "witness length",
            then_labelled(text, " vs program ", enc.z_len as i128),
        );
    }
    Ok(())
}

/// The sum of the selectors of an instruction.
pub open spec fn selector_sum(e: EncodingView, i: int) -> int {
    e.sel[0][i] + e.sel[1][i] + e.sel[2][i] + e.sel[3][i] + e.sel[4][i]
}

/// A selector is zero or one.
pub open spec fn is_bit(x: int) -> bool {
    x == 0 || x == 1
}

/// The selectors of an instruction are zeros and a single one, at its kind.
pub open spec fn one_hot(e: EncodingView, i: int) -> bool {
    &&& selector_sum(e, i) == 1
    &&& is_bit(e.sel[0][i])
    &&& is_bit(e.sel[1][i])
    &&& is_bit(e.sel[2][i])
    &&& is_bit(e.sel[3][i])
    &&& is_bit(e.sel[4][i])
    &&& e.sel[e.opcode[i].number()][i] == 1
}

/// A counter differs from what it should be.
pub open spec fn differ(got: int, want: int) -> Seq<char> {
    decimal(got) + " != "@ + decimal(want)
}

fn differ_text(got: usize, want: usize) -> (out: String)
    ensures
        out@ == differ(got as int, want as int),
{
    then_labelled(number(got as i128), " != ", want as i128)
}

/// What is wrong with the counters from instruction `i` on, if anything.
pub open spec fn counter_violation(e: EncodingView, i: int) -> Option<Violation>
    decreases e.opcode.len() - i,
{
    let c = counters_at(e, i);
    if i >= e.opcode.len() {
        if c.out != e.aux_start {
            broken_whole(
                "trace end"@,
                "trace ends at "@ + decimal(c.out) + ", advice starts at "@ + decimal(e.aux_start),
            )
        } else if c.aux != e.z_len || c.cr != e.cons_line || c.lr != e.lu_line {
            broken_whole(
                "counter totals"@,
                "aux "@ + decimal(c.aux) + " cr "@ + decimal(c.cr) + " lr "@ + decimal(c.lr),
            )
        } else {
            None
        }
    } else if e.out[i] != c.out {
        broken(i, "output counter"@, differ(e.out[i], c.out))
    } else if e.aux[i] != c.aux {
        broken(i, "advice counter"@, differ(e.aux[i], c.aux))
    } else if e.cr[i] != c.cr {
        broken(i, "constraint counter"@, differ(e.cr[i], c.cr))
    } else if e.lr[i] != c.lr {
        broken(i, "lookup counter"@, differ(e.lr[i], c.lr))
    } else if e.sel.len() != NUM_OPCODES {
        broken(i, "selector"@, decimal(e.sel.len() as int) + " vectors"@)
    } else if !one_hot(e, i) {
        broken(i, "selector one-hot"@, "sum "@ + decimal(selector_sum(e, i)))
    } else {
        counter_violation(e, i + 1)
    }
}

fn is_bit_exec(x: i64) -> (out: bool)
    ensures
        out == is_bit(x as int),
{
    x == 0 || x == 1
}

fn check_one_hot(enc: &ProgramEncoding, i: usize) -> (out: (bool, i128))
    requires
        encoding_fits(enc@),
        enc@.sel.len() == NUM_OPCODES,
        i < enc@.opcode.len(),
    ensures
        out.0 == one_hot(enc@, i as int),
        out.1 == selector_sum(enc@, i as int),
{
    let ghost e = enc@;
    proof {
        assert(e.sel[0].len() > i && e.sel[1].len() > i && e.sel[2].len() > i && e.sel[3].len() > i
            && e.sel[4].len() > i);
        assert(e.sel[0] == numbers(enc.sel[0]@) && e.sel[1] == numbers(enc.sel[1]@) && e.sel[2]
            == numbers(enc.sel[2]@) && e.sel[3] == numbers(enc.sel[3]@) && e.sel[4] == numbers(
            enc.sel[4]@,
        ));
    }
    let s0: i64 = enc.sel[0][i];
    let s1: i64 = enc.sel[1][i];
    let s2: i64 = enc.sel[2][i];
    let s3: i64 = enc.sel[3][i];
    let s4: i64 = enc.sel[4][i];
    let sum: i128 = s0 as i128 + s1 as i128 + s2 as i128 + s3 as i128 + s4 as i128;
    let own: usize = enc.opcode[i].index();
    let bits = is_bit_exec(s0) && is_bit_exec(s1) && is_bit_exec(s2) && is_bit_exec(s3)
        && is_bit_exec(s4);
    (sum == 1 && bits && enc.sel[own][i] == 1, sum)
}

/// Checks the counters and the selectors of an encoding.
pub fn check_counters(enc: &ProgramEncoding) -> (out: Result<(), RuleViolation>)
    requires
        encoding_fits(enc@),
    ensures
        verdict(out) == counter_violation(enc@, 0),
{
    let ghost e = enc@;
    let ghost q = e.opcode.len() as int;
    proof {
        lemma_counters(e, 0, q);
    }
    let mut out: usize = enc.weight_len + enc.input_len;
    let mut aux: usize = enc.aux_start;
    let mut cr: usize = 0;
    let mut lr: usize = 0;
    for i in 0..enc.opcode.len()
        invariant
            e == enc@,
            q == e.opcode.len(),
            encoding_fits(e),
            out == counters_at(e, i as int).out,
            aux == counters_at(e, i as int).aux,
            cr == counters_at(e, i as int).cr,
            lr == counters_at(e, i as int).lr,
            counter_violation(e, 0) == counter_violation(e, i as int),
    {
        proof {
            assert(e.out[i as int] == enc.out[i as int]);
            assert(e.aux[i as int] == enc.aux[i as int]);
            assert(e.cr[i as int] == enc.cr[i as int]);
            assert(e.lr[i as int] == enc.lr[i as int]);
            assert(e.sel.len() == enc.sel.len());
            assert(deltas_fit(e.opcode[i as int], operands_of(e, i as int)));
            lemma_delta(e.opcode[i as int], operands_of(e, i as int));
            lemma_counters(e, i as int, q);
            lemma_counters(e, i + 1, q);
        }
        if enc.out[i] != out {
            return fail(Some(i), "output counter", differ_text(enc.out[i], out));
        }
        if enc.aux[i] != aux {
            return fail(Some(i), "advice counter", differ_text(enc.aux[i], aux));
        }
        if enc.cr[i] != cr {
            return fail(Some(i), "constraint counter", differ_text(enc.cr[i], cr));
        }
        if enc.lr[i] != lr {
            return fail(Some(i), "lookup counter", differ_text(enc.lr[i], lr));
        }
        if enc.sel.len() != NUM_OPCODES {
            return fail(Some(i), "selector", number(enc.sel.len() as i128).concat(" vectors"));
        }
        let hot = check_one_hot(enc, i);
        if !hot.0 {
            return fail(Some(i), "selector one-hot", labelled("sum ", hot.1));
        }
        let d = ProgramEncoding::deltas(enc.opcode[i], enc.operands(i).as_slice());
        out = out + d.out;
        aux = aux + d.aux;
        cr = cr + d.cr;
        lr = lr + d.lr;
    }
    if out != enc.aux_start {
        let text = labelled("trace ends at ", out as i128);
        return fail(
            None,
            "trace end",
            then_labelled(text, ", advice starts at ", enc.aux_start as i128),
        );
    }
    if aux != enc.z_len || cr != enc.cons_line || lr != enc.lu_line {
        let text = labelled("aux ", aux as i128);
        let text = then_labelled(text, " cr ", cr as i128);
        return fail(None, "counter totals", then_labelled(text, " lr ", lr as i128));
    }
    Ok(())
}

/// What is wrong with the rows of a matrix product from row `r` on, if anything.
pub open spec fn product_violation(
    i: int,
    c: CircuitView,
    o: Seq<int>,
    at: DeltaView,
    r: int,
) -> Option<Violation>
    decreases o[1] - r,
{
    let n = o[1];
    if r >= n {
        either(
            row_violation(i, "MatMult advice sum"@, c.a[at.cr + n], cells(at.aux, n)),
            either(
                row_violation(i, "MatMult sum unit"@, c.b[at.cr + n], seq![cell(0)]),
                row_violation(
                    i,
                    "MatMult output"@,
                    c.c[at.cr + n],
                    graded(at.out, o[0] * o[2]),
                ),
            ),
        )
    } else {
        either(
            row_violation(
                i,
                "MatMult X row"@,
                c.a[at.cr + r],
                left_row(o[0], o[2], o[3], r),
            ),
            either(
                row_violation(
                    i,
                    "MatMult Y row"@,
                    c.b[at.cr + r],
                    graded(o[4] + r * o[2], o[2]),
                ),
                either(
                    row_violation(i, "MatMult advice"@, c.c[at.cr + r], seq![cell(at.aux + r)]),
                    product_violation(i, c, o, at, r + 1),
                ),
            ),
        )
    }
}

/// What is wrong with the rows of a convolution from channel `ch` on, if anything.
pub open spec fn convolution_violation(
    i: int,
    c: CircuitView,
    o: Seq<int>,
    at: DeltaView,
    ch: int,
) -> Option<Violation>
    decreases o[0] - ch,
{
    let ins = o[0];
    let side = o[2] + o[3] - 1;
    if ch >= ins {
        either(
            row_violation(i, "Conv advice sum"@, c.a[at.cr + ins], cells(at.aux, ins)),
            either(
                row_violation(i, "Conv sum unit"@, c.b[at.cr + ins], seq![cell(0)]),
                row_violation(
                    i,
                    "Conv output"@,
                    c.c[at.cr + ins],
                    graded(at.out, o[1] * side * side),
                ),
            ),
        )
    } else {
        either(
            row_violation(
                i,
                "Conv input plane"@,
                c.a[at.cr + ch],
                plane_row(o[2], side, o[4], ch),
            ),
            either(
                row_violation(
                    i,
                    "Conv kernel"@,
                    c.b[at.cr + ch],
                    kernel_row(o[3], o[1], side, o[5], ch),
                ),
                either(
                    row_violation(i, "Conv advice"@, c.c[at.cr + ch], seq![cell(at.aux + ch)]),
                    convolution_violation(i, c, o, at, ch + 1),
                ),
            ),
        )
    }
}

/// What is wrong with the rows of a division, if anything.
pub open spec fn division_violation(
    i: int,
    c: CircuitView,
    divisor: int,
    at: DeltaView,
) -> Option<Violation> {
    if divisor <= 0 {
        broken(i, "Div divisor"@, decimal(divisor))
    } else {
        either(
            read_violation(i, "Div reads"@, c.a[at.cr], at.out, 0),
            either(
                read_violation(i, "Div reads"@, c.b[at.cr], at.out, 0),
                either(
                    row_violation(
                        i,
                        "Div output"@,
                        c.c[at.cr],
                        seq![Entry { col: at.out, val: divisor, pow: 0 }, cell(at.aux)],
                    ),
                    either(
                        row_violation(i, "Div remainder input"@, c.d[at.lr], Seq::empty()),
                        either(
                            row_violation(i, "Div remainder"@, c.e[at.lr], seq![cell(at.aux)]),
                            if !cong(c.tp[at.lr], -divisor) {
                                broken(i, "Div remainder type"@, "row "@ + decimal(at.lr))
                            } else {
                                quotient_violation(i, c, at)
                            },
                        ),
                    ),
                ),
            ),
        )
    }
}

/// What is wrong with the row that bounds a quotient, if anything.
pub open spec fn quotient_violation(i: int, c: CircuitView, at: DeltaView) -> Option<Violation> {
    either(
        row_violation(i, "Div quotient input"@, c.d[at.lr + 1], Seq::empty()),
        either(
            row_violation(i, "Div quotient"@, c.e[at.lr + 1], seq![cell(at.out)]),
            if !cong(c.tp[at.lr + 1], LookupType::Bound(QUOTIENT_BOUND).tag_of()) {
                broken(i, "Div quotient type"@, "row "@ + decimal(at.lr + 1))
            } else {
                None
            },
        ),
    )
}

/// Where the operands and the outputs of an instruction start.
pub open spec fn operand_range(s1: int, s2: int, out: int) -> Seq<char> {
    "s1="@ + decimal(s1) + " s2="@ + decimal(s2) + " out="@ + decimal(out)
}

fn operand_range_text(s1: usize, s2: usize, out: usize) -> (text: String)
    ensures
        text@ == operand_range(s1 as int, s2 as int, out as int),
{
    let text = labelled("s1=", s1 as i128);
    let text = then_labelled(text, " s2=", s2 as i128);
    then_labelled(text, " out=", out as i128)
}

/// What is wrong with the rows of instruction `i`, if anything.
pub open spec fn instruction_violation(
    e: EncodingView,
    c: CircuitView,
    i: int,
) -> Option<Violation> {
    let o = operands_of(e, i);
    let at = DeltaView { out: e.out[i], aux: e.aux[i], cr: e.cr[i], lr: e.lr[i] };
    match e.opcode[i] {
        Opcode::AddMult => either(
            read_violation(i, "AddMult reads"@, c.a[at.cr], at.out, 0),
            either(
                read_violation(i, "AddMult reads"@, c.b[at.cr], at.out, 0),
                row_violation(i, "AddMult output"@, c.c[at.cr], seq![cell(at.out)]),
            ),
        ),
        Opcode::Lookup => either(
            read_violation(i, "Lookup reads"@, c.d[at.lr], at.out, 0),
            either(
                row_violation(i, "Lookup output"@, c.e[at.lr], seq![cell(at.out)]),
                if !cong(c.tp[at.lr], o[0]) {
                    broken(i, "Lookup type"@, "tag "@ + decimal(o[0]))
                } else {
                    None
                },
            ),
        ),
        Opcode::Div => division_violation(i, c, o[0], at),
        Opcode::MatMult => if o[0] == 0 || o[1] == 0 || o[2] == 0 {
            broken(
                i,
                "MatMult dimensions"@,
                decimal(o[0]) + "x"@ + decimal(o[1]) + "x"@ + decimal(o[2]),
            )
        } else if o[3] + o[1] * o[0] > at.out || o[4] + o[1] * o[2] > at.out {
            broken(i, "MatMult operand range"@, operand_range(o[3], o[4], at.out))
        } else {
            product_violation(i, c, o, at, 0)
        },
        Opcode::Conv => if o[0] == 0 || o[1] == 0 || o[2] == 0 || o[3] == 0 {
            broken(
                i,
                "Conv dimensions"@,
                "C="@ + decimal(o[0]) + " D="@ + decimal(o[1]) + " n="@ + decimal(o[2]) + " m="@
                    + decimal(o[3]),
            )
        } else if o[4] + o[0] * (o[2] * o[2]) > at.out || o[5] + o[0] * (o[1] * (o[3] * o[3]))
            > at.out {
            broken(i, "Conv operand range"@, operand_range(o[4], o[5], at.out))
        } else {
            convolution_violation(i, c, o, at, 0)
        },
    }
}

/// What is wrong with the rows of the instructions from `i` on, if anything.
pub open spec fn instructions_violation(
    e: EncodingView,
    c: CircuitView,
    i: int,
) -> Option<Violation>
    decreases e.opcode.len() - i,
{
    if i >= e.opcode.len() {
        None
    } else {
        either(instruction_violation(e, c, i), instructions_violation(e, c, i + 1))
    }
}

/// What keeps a circuit from being the compilation of the program that is encoded,
/// if anything.
pub open spec fn violation(e: EncodingView, c: CircuitView) -> Option<Violation> {
    either(
        shape_violation(e, c),
        either(counter_violation(e, 0), instructions_violation(e, c, 0)),
    )
}

fn cell_row(col: usize) -> (out: Vec<(usize, i64, Option<usize>)>)
    ensures
        powered_row(out@) == seq![cell(col as int)],
{
    let mut out: Vec<(usize, i64, Option<usize>)> = Vec::new();
    out.push((col, 1, None));
    assert(powered_row(out@) =~= seq![cell(col as int)]);
    out
}

fn cells_row(start: usize, len: usize) -> (out: Vec<(usize, i64, Option<usize>)>)
    requires
        start + len <= usize::MAX,
    ensures
        powered_row(out@) == cells(start as int, len as int),
{
    let mut out: Vec<(usize, i64, Option<usize>)> = Vec::new();
    for i in 0..len
        invariant
            start + len <= usize::MAX,
            out.len() == i,
            forall|j: int|
                0 <= j < i ==> (#[trigger] out[j]) == (
                    (start + j) as usize,
                    1i64,
                    None::<usize>,
                ),
    {
        out.push((start + i, 1, None));
    }
    assert(powered_row(out@) =~= cells(start as int, len as int));
    out
}

fn empty_row() -> (out: Vec<(usize, i64, Option<usize>)>)
    ensures
        powered_row(out@) == Seq::<Entry>::empty(),
{
    let out: Vec<(usize, i64, Option<usize>)> = Vec::new();
    assert(powered_row(out@) =~= Seq::<Entry>::empty());
    out
}

fn check_quotient(i: usize, circuit: &Circuit, out: usize, lr: usize) -> (r: Result<
    (),
    RuleViolation,
>)
    requires
        lr + 1 < circuit@.d.len(),
        lr + 1 < circuit@.e.len(),
        lr + 1 < circuit@.tp.len(),
    ensures
        forall|at: DeltaView|
            at.out == out && at.lr == lr ==> verdict(r) == #[trigger] quotient_violation(
                i as int,
                circuit@,
                at,
            ),
{
    assert(circuit.d@.len() == circuit.d.rows.len());
    let next: usize = lr + 1;
    match expect_row(i, "Div quotient input", &circuit.d.rows[next], &empty_row()) {
        Err(v) => return Err(v),
        Ok(_) => {},
    }
    match expect_row(i, "Div quotient", &circuit.e.rows[next], &cell_row(out)) {
        Err(v) => return Err(v),
        Ok(_) => {},
    }
    let tag: i64 = LookupType::Bound(QUOTIENT_BOUND).tag();
    if !(circuit.tp[next] == Fr::from_i64(tag)) {
        return fail(Some(i), "Div quotient type", labelled("row ", next as i128));
    }
    Ok(())
}

fn check_division(
    i: usize,
    circuit: &Circuit,
    divisor: i64,
    out: usize,
    aux: usize,
    cr: usize,
    lr: usize,
) -> (r: Result<(), RuleViolation>)
    requires
        cr < circuit@.a.len(),
        cr < circuit@.b.len(),
        cr < circuit@.c.len(),
        lr + 1 < circuit@.d.len(),
        lr + 1 < circuit@.e.len(),
        lr + 1 < circuit@.tp.len(),
    ensures
        verdict(r) == division_violation(
            i as int,
            circuit@,
            divisor as int,
            (DeltaView { out: out as int, aux: aux as int, cr: cr as int, lr: lr as int }),
        ),
{
    if divisor <= 0 {
        return fail(Some(i), "Div divisor", number(divisor as i128));
    }
    match check_reads(i, "Div reads", &circuit.a.rows[cr], out) {
        Err(v) => return Err(v),
        Ok(_) => {},
    }
    match check_reads(i, "Div reads", &circuit.b.rows[cr], out) {
        Err(v) => return Err(v),
        Ok(_) => {},
    }
    let mut written: Vec<(usize, i64, Option<usize>)> = Vec::new();
    written.push((out, divisor, None));
    written.push((aux, 1, None));
    assert(powered_row(written@) =~= seq![
        Entry { col: out as int, val: divisor as int, pow: 0 },
        cell(aux as int),
    ]);
    match expect_row(i, "Div output", &circuit.c.rows[cr], &written) {
        Err(v) => return Err(v),
        Ok(_) => {},
    }
    match expect_row(i, "Div remainder input", &circuit.d.rows[lr], &empty_row()) {
        Err(v) => return Err(v),
        Ok(_) => {},
    }
    match expect_row(i, "Div remainder", &circuit.e.rows[lr], &cell_row(aux)) {
        Err(v) => return Err(v),
        Ok(_) => {},
    }
    let tag: i64 = LookupType::Range(divisor).tag();
    if !(circuit.tp[lr] == Fr::from_i64(tag)) {
        return fail(Some(i), "Div remainder type", labelled("row ", lr as i128));
    }
    check_quotient(i, circuit, out, lr)
}

fn check_product(
    i: usize,
    circuit: &Circuit,
    m: usize,
    n: usize,
    k: usize,
    s1: usize,
    s2: usize,
    out: usize,
    aux: usize,
    cr: usize,
    Ghost(o): Ghost<Seq<int>>,
    Ghost(at): Ghost<DeltaView>,
) -> (r: Result<(), RuleViolation>)
    requires
        o[0] == m && o[1] == n && o[2] == k && o[3] == s1 && o[4] == s2,
        at.out == out && at.aux == aux && at.cr == cr,
        s1 + n * m <= usize::MAX,
        s2 + n * k <= usize::MAX,
        0 <= m * k,
        out + m * k <= usize::MAX,
        aux + n <= usize::MAX,
        cr + n < circuit@.a.len(),
        cr + n < circuit@.b.len(),
        cr + n < circuit@.c.len(),
    ensures
        verdict(r) == product_violation(i as int, circuit@, o, at, 0),
{
    let ghost c = circuit@;
    let ghost goal = product_violation(i as int, c, o, at, 0);
    for row in 0..n
        invariant
            c == circuit@,
            o[0] == m && o[1] == n && o[2] == k && o[3] == s1 && o[4] == s2,
            at.out == out && at.aux == aux && at.cr == cr,
            s1 + n * m <= usize::MAX,
            s2 + n * k <= usize::MAX,
            0 <= m * k,
            out + m * k <= usize::MAX,
            aux + n <= usize::MAX,
            cr + n < c.a.len(),
            cr + n < c.b.len(),
            cr + n < c.c.len(),
            goal == product_violation(i as int, c, o, at, 0),
            goal == product_violation(i as int, c, o, at, row as int),
    {
        assert(c.a.len() == circuit.a.rows.len());
        let here: usize = cr + row;
        let want = Builder::left_row_exec(m, n, k, s1, row);
        match expect_row(i, "MatMult X row", &circuit.a.rows[here], &want) {
            Err(v) => return Err(v),
            Ok(_) => {},
        }
        assert(0 <= row * k && row * k + k <= n * k) by (nonlinear_arith)
            requires
                0 <= row,
                row + 1 <= n,
                k >= 0,
        ;
        let want = Builder::graded_exec(s2 + row * k, k);
        match expect_row(i, "MatMult Y row", &circuit.b.rows[here], &want) {
            Err(v) => return Err(v),
            Ok(_) => {},
        }
        match expect_row(i, "MatMult advice", &circuit.c.rows[here], &cell_row(aux + row)) {
            Err(v) => return Err(v),
            Ok(_) => {},
        }
    }
    assert(c.a.len() == circuit.a.rows.len());
    let last: usize = cr + n;
    match expect_row(i, "MatMult advice sum", &circuit.a.rows[last], &cells_row(aux, n)) {
        Err(v) => return Err(v),
        Ok(_) => {},
    }
    match expect_row(i, "MatMult sum unit", &circuit.b.rows[last], &cell_row(0)) {
        Err(v) => return Err(v),
        Ok(_) => {},
    }
    expect_row(i, "MatMult output", &circuit.c.rows[last], &Builder::graded_exec(out, m * k))
}

fn check_convolution(
    i: usize,
    circuit: &Circuit,
    ins: usize,
    outs: usize,
    n: usize,
    m: usize,
    s1: usize,
    s2: usize,
    out: usize,
    aux: usize,
    cr: usize,
    Ghost(o): Ghost<Seq<int>>,
    Ghost(at): Ghost<DeltaView>,
) -> (r: Result<(), RuleViolation>)
    requires
        o[0] == ins && o[1] == outs && o[2] == n && o[3] == m && o[4] == s1 && o[5] == s2,
        at.out == out && at.aux == aux && at.cr == cr,
        n >= 1,
        n + m <= usize::MAX,
        (n + m - 1) * (n + m - 1) <= usize::MAX,
        0 <= outs * (n + m - 1) <= usize::MAX,
        0 <= outs * (n + m - 1) * (n + m - 1),
        n * n <= usize::MAX,
        m * m <= usize::MAX,
        outs * (m * m) <= usize::MAX,
        s1 + ins * (n * n) <= usize::MAX,
        s2 + ins * (outs * (m * m)) <= usize::MAX,
        out + outs * (n + m - 1) * (n + m - 1) <= usize::MAX,
        aux + ins <= usize::MAX,
        cr + ins < circuit@.a.len(),
        cr + ins < circuit@.b.len(),
        cr + ins < circuit@.c.len(),
    ensures
        verdict(r) == convolution_violation(i as int, circuit@, o, at, 0),
{
    let ghost c = circuit@;
    let ghost goal = convolution_violation(i as int, c, o, at, 0);
    for ch in 0..ins
        invariant
            c == circuit@,
            o[0] == ins && o[1] == outs && o[2] == n && o[3] == m && o[4] == s1 && o[5] == s2,
            at.out == out && at.aux == aux && at.cr == cr,
            n >= 1,
            n + m <= usize::MAX,
            (n + m - 1) * (n + m - 1) <= usize::MAX,
            outs * (n + m - 1) * (n + m - 1) <= usize::MAX,
            n * n <= usize::MAX,
            m * m <= usize::MAX,
            outs * (m * m) <= usize::MAX,
            s1 + ins * (n * n) <= usize::MAX,
            s2 + ins * (outs * (m * m)) <= usize::MAX,
            aux + ins <= usize::MAX,
            cr + ins < c.a.len(),
            cr + ins < c.b.len(),
            cr + ins < c.c.len(),
            goal == convolution_violation(i as int, c, o, at, 0),
            goal == convolution_violation(i as int, c, o, at, ch as int),
    {
        assert(c.a.len() == circuit.a.rows.len());
        let here: usize = cr + ch;
        let want = Builder::plane_row_exec(n, m, ins, s1, ch);
        match expect_row(i, "Conv input plane", &circuit.a.rows[here], &want) {
            Err(v) => return Err(v),
            Ok(_) => {},
        }
        let want = Builder::kernel_row_exec(n, m, ins, outs, s2, ch);
        match expect_row(i, "Conv kernel", &circuit.b.rows[here], &want) {
            Err(v) => return Err(v),
            Ok(_) => {},
        }
        match expect_row(i, "Conv advice", &circuit.c.rows[here], &cell_row(aux + ch)) {
            Err(v) => return Err(v),
            Ok(_) => {},
        }
    }
    assert(c.a.len() == circuit.a.rows.len());
    let last: usize = cr + ins;
    match expect_row(i, "Conv advice sum", &circuit.a.rows[last], &cells_row(aux, ins)) {
        Err(v) => return Err(v),
        Ok(_) => {},
    }
    match expect_row(i, "Conv sum unit", &circuit.b.rows[last], &cell_row(0)) {
        Err(v) => return Err(v),
        Ok(_) => {},
    }
    let side: usize = n + m - 1;
    expect_row(
        i,
        "Conv output",
        &circuit.c.rows[last],
        &Builder::graded_exec(out, outs * side * side),
    )
}

/// The counters of an encoding are right up to instruction `i`.
pub open spec fn counted(e: EncodingView) -> bool {
    let q = e.opcode.len() as int;
    let last = counters_at(e, q);
    &&& forall|i: int|
        0 <= i < q ==> (DeltaView {
            out: #[trigger] e.out[i],
            aux: e.aux[i],
            cr: e.cr[i],
            lr: e.lr[i],
        }) == counters_at(e, i)
    &&& e.sel.len() == NUM_OPCODES || q == 0
    &&& forall|i: int| 0 <= i < q ==> #[trigger] one_hot(e, i)
    &&& last.out == e.aux_start
    &&& last.aux == e.z_len
    &&& last.cr == e.cons_line
    &&& last.lr == e.lu_line
}

/// Nothing is wrong with the counters exactly when they are right.
pub proof fn lemma_counted(e: EncodingView)
    ensures
        counter_violation(e, 0) is None <==> counted(e),
{
    if counter_violation(e, 0) is None {
        lemma_counted_from(e, 0);
    } else if counted(e) {
        lemma_counted_back(e, 0);
    }
}

proof fn lemma_counted_from(e: EncodingView, k: int)
    requires
        0 <= k <= e.opcode.len(),
        counter_violation(e, k) is None,
    ensures
        forall|i: int|
            k <= i < e.opcode.len() ==> (DeltaView {
                out: #[trigger] e.out[i],
                aux: e.aux[i],
                cr: e.cr[i],
                lr: e.lr[i],
            }) == counters_at(e, i),
        forall|i: int| k <= i < e.opcode.len() ==> #[trigger] one_hot(e, i),
        k < e.opcode.len() ==> e.sel.len() == NUM_OPCODES,
        counters_at(e, e.opcode.len() as int).out == e.aux_start,
        counters_at(e, e.opcode.len() as int).aux == e.z_len,
        counters_at(e, e.opcode.len() as int).cr == e.cons_line,
        counters_at(e, e.opcode.len() as int).lr == e.lu_line,
    decreases e.opcode.len() - k,
{
    if k < e.opcode.len() {
        lemma_counted_from(e, k + 1);
    }
}

proof fn lemma_counted_back(e: EncodingView, k: int)
    requires
        counted(e),
        0 <= k <= e.opcode.len(),
    ensures
        counter_violation(e, k) is None,
    decreases e.opcode.len() - k,
{
    if k < e.opcode.len() {
        lemma_counted_back(e, k + 1);
        assert(e.out[k] == counters_at(e, k).out);
        assert(one_hot(e, k));
    }
}

/// The circuit has the rows that the encoding counts.
pub open spec fn shaped(e: EncodingView, c: CircuitView) -> bool {
    &&& c.weight_len == e.weight_len
    &&& c.a.len() == e.cons_line
    &&& c.b.len() == e.cons_line
    &&& c.c.len() == e.cons_line
    &&& c.d.len() == e.lu_line
    &&& c.e.len() == e.lu_line
    &&& c.tp.len() == e.lu_line
    &&& c.z_len == e.z_len
}

#[verifier::rlimit(40)]
fn check_instruction(enc: &ProgramEncoding, circuit: &Circuit, i: usize) -> (r: Result<
    (),
    RuleViolation,
>)
    requires
        encoding_fits(enc@),
        counted(enc@),
        shaped(enc@, circuit@),
        i < enc@.opcode.len(),
    ensures
        verdict(r) == instruction_violation(enc@, circuit@, i as int),
{
    let ghost e = enc@;
    let ghost c = circuit@;
    let ghost q = e.opcode.len() as int;
    let ghost o = operands_of(e, i as int);
    proof {
        assert(e.out[i as int] == enc.out[i as int]);
        assert(e.aux[i as int] == enc.aux[i as int]);
        assert(e.cr[i as int] == enc.cr[i as int]);
        assert(e.lr[i as int] == enc.lr[i as int]);
        lemma_counters(e, i as int, q);
        lemma_counters(e, i + 1, q);
        assert(deltas_fit(e.opcode[i as int], o));
        lemma_delta(e.opcode[i as int], o);
        assert(c.tp.len() == circuit.tp.len());
    }
    let opn = enc.operands(i);
    assert(numbers(opn@) == o);
    assert(o[0] == opn[0] && o[1] == opn[1] && o[2] == opn[2] && o[3] == opn[3] && o[4] == opn[4]
        && o[5] == opn[5]);
    let out: usize = enc.out[i];
    let aux: usize = enc.aux[i];
    let cr: usize = enc.cr[i];
    let lr: usize = enc.lr[i];
    let ghost at = DeltaView { out: out as int, aux: aux as int, cr: cr as int, lr: lr as int };
    match enc.opcode[i] {
        Opcode::AddMult => {
            match check_reads(i, "AddMult reads", &circuit.a.rows[cr], out) {
                Err(v) => return Err(v),
                Ok(_) => {},
            }
            match check_reads(i, "AddMult reads", &circuit.b.rows[cr], out) {
                Err(v) => return Err(v),
                Ok(_) => {},
            }
            expect_row(i, "AddMult output", &circuit.c.rows[cr], &cell_row(out))
        },
        Opcode::Lookup => {
            match check_reads(i, "Lookup reads", &circuit.d.rows[lr], out) {
                Err(v) => return Err(v),
                Ok(_) => {},
            }
            match expect_row(i, "Lookup output", &circuit.e.rows[lr], &cell_row(out)) {
                Err(v) => return Err(v),
                Ok(_) => {},
            }
            if !(circuit.tp[lr] == Fr::from_i64(opn[0])) {
                return fail(Some(i), "Lookup type", labelled("tag ", opn[0] as i128));
            }
            Ok(())
        },
        Opcode::Div => check_division(i, circuit, opn[0], out, aux, cr, lr),
        Opcode::MatMult => {
            assert(0 <= o[0] <= usize::MAX && 0 <= o[1] <= usize::MAX && 0 <= o[2] <= usize::MAX
                && 0 <= o[3] <= usize::MAX && 0 <= o[4] <= usize::MAX);
            let m: usize = opn[0] as usize;
            let n: usize = opn[1] as usize;
            let k: usize = opn[2] as usize;
            let s1: usize = opn[3] as usize;
            let s2: usize = opn[4] as usize;
            if m == 0 || n == 0 || k == 0 {
                let text = then_labelled(number(m as i128), "x", n as i128);
                return fail(Some(i), "MatMult dimensions", then_labelled(text, "x", k as i128));
            }
            assert(n * m <= i64::MAX * i64::MAX && n * k <= i64::MAX * i64::MAX && 0 <= n * m && 0
                <= n * k) by (nonlinear_arith)
                requires
                    0 <= n <= i64::MAX,
                    0 <= m <= i64::MAX,
                    0 <= k <= i64::MAX,
            ;
            let left: u128 = s1 as u128 + n as u128 * m as u128;
            let right: u128 = s2 as u128 + n as u128 * k as u128;
            if left > out as u128 || right > out as u128 {
                return fail(Some(i), "MatMult operand range", operand_range_text(s1, s2, out));
            }
            check_product(i, circuit, m, n, k, s1, s2, out, aux, cr, Ghost(o), Ghost(at))
        },
        Opcode::Conv => {
            assert(0 <= o[0] <= usize::MAX && 0 <= o[1] <= usize::MAX && 0 <= o[2] <= usize::MAX
                && 0 <= o[3] <= usize::MAX && 0 <= o[4] <= usize::MAX && 0 <= o[5] <= usize::MAX);
            let ins: usize = opn[0] as usize;
            let outs: usize = opn[1] as usize;
            let n: usize = opn[2] as usize;
            let m: usize = opn[3] as usize;
            let s1: usize = opn[4] as usize;
            let s2: usize = opn[5] as usize;
            if ins == 0 || outs == 0 || n == 0 || m == 0 {
                let text = labelled("C=", ins as i128);
                let text = then_labelled(text, " D=", outs as i128);
                let text = then_labelled(text, " n=", n as i128);
                return fail(Some(i), "Conv dimensions", then_labelled(text, " m=", m as i128));
            }
            proof {
                lemma_conv_sizes(ins as int, outs as int, n as int, m as int);
            }
            let left: u128 = s1 as u128 + ins as u128 * (n as u128 * n as u128);
            let right: u128 = s2 as u128 + ins as u128 * (outs as u128 * (m as u128 * m as u128));
            if left > out as u128 || right > out as u128 {
                return fail(Some(i), "Conv operand range", operand_range_text(s1, s2, out));
            }
            check_convolution(
                i,
                circuit,
                ins,
                outs,
                n,
                m,
                s1,
                s2,
                out,
                aux,
                cr,
                Ghost(o),
                Ghost(at),
            )
        },
    }
}

/// The sizes of a convolution whose outputs are a word.
proof fn lemma_conv_sizes(ins: int, outs: int, n: int, m: int)
    requires
        1 <= ins <= i64::MAX,
        1 <= outs,
        1 <= n,
        1 <= m,
        outs * (n + m - 1) * (n + m - 1) <= usize::MAX,
    ensures
        0 <= (n + m - 1) * (n + m - 1) <= usize::MAX,
        0 <= n * n <= usize::MAX,
        0 <= m * m <= usize::MAX,
        0 <= outs * (m * m) <= usize::MAX,
        0 <= ins * (n * n) <= i64::MAX * usize::MAX,
        0 <= ins * (outs * (m * m)) <= i64::MAX * usize::MAX,
{
    let side = n + m - 1;
    let s = side * side;
    assert(0 <= n * n <= s && 0 <= m * m <= s) by (nonlinear_arith)
        requires
            s == side * side,
            0 <= n <= side,
            0 <= m <= side,
    ;
    assert(outs * side * side == outs * s) by (nonlinear_arith)
        requires
            s == side * side,
    ;
    assert(s <= outs * s) by (nonlinear_arith)
        requires
            1 <= outs,
            0 <= s,
    ;
    assert(0 <= outs * (m * m) <= outs * s) by (nonlinear_arith)
        requires
            1 <= outs,
            0 <= m * m <= s,
    ;
    let a = n * n;
    let b = outs * (m * m);
    assert(0 <= ins * a <= i64::MAX * usize::MAX) by (nonlinear_arith)
        requires
            1 <= ins <= i64::MAX,
            0 <= a <= usize::MAX,
    ;
    assert(0 <= ins * b <= i64::MAX * usize::MAX) by (nonlinear_arith)
        requires
            1 <= ins <= i64::MAX,
            0 <= b <= usize::MAX,
    ;
}

/// Checks that a circuit is the compilation of the program that is encoded.
pub fn check_compilation(enc: &ProgramEncoding, circuit: &Circuit) -> (out: Result<
    (),
    RuleViolation,
>)
    requires
        encoding_fits(enc@),
    ensures
        verdict(out) == violation(enc@, circuit@),
{
    match check_shape(enc, circuit) {
        Err(v) => return Err(v),
        Ok(_) => {},
    }
    match check_counters(enc) {
        Err(v) => return Err(v),
        Ok(_) => {},
    }
    let ghost e = enc@;
    let ghost c = circuit@;
    proof {
        lemma_counted(e);
    }
    for i in 0..enc.opcode.len()
        invariant
            e == enc@,
            c == circuit@,
            encoding_fits(e),
            counted(e),
            shaped(e, c),
            violation(e, c) == instructions_violation(e, c, i as int),
    {
        match check_instruction(enc, circuit, i) {
            Err(v) => return Err(v),
            Ok(_) => {},
        }
    }
    Ok(())
}

} // verus!
