//! The compilation of a program to a circuit.
use vstd::prelude::*;
use vstd::arithmetic::div_mod::*;
use crate::circuit::{
    Circuit, CircuitView, Entry, LookupType, QUOTIENT_BOUND, SparseMatrix, plain_row, powered_row,
    table_rows,
};
use crate::field::{Fr, cong};
use crate::instruction::Instruction;
use crate::program::{Program, ints, kernel_pow, out_at};
use crate::text::{decimal, labelled, then_labelled};

verus! {

/// Why a program has no compilation.
#[derive(Debug, Clone, Copy, PartialEq, Eq, Structural)]
pub enum CompileError {
    /// An instruction reads a cell of the advice region.
    ReadsAdvice { instr: usize, col: usize },
    /// An instruction reads a cell that is not yet written.
    ReadsFutureTrace { instr: usize, col: usize },
    /// An instruction reads a parameter elsewhere than on the `B` side.
    ReadsParameter { instr: usize, col: usize },
    /// The advice region does not start where the trace ends.
    TraceLengthMismatch { expected: usize, found: usize },
    /// A divisor is not positive.
    NonPositiveDivisor { instr: usize, divisor: i64 },
    /// A lookup has a type that is kept for divisions.
    ReservedLookupType { instr: usize },
    /// The table has no row of a type that is looked up.
    MissingLookupRows { instr: usize },
    /// The table has two outputs for one input of a type that is looked up.
    AmbiguousTable { instr: usize },
    /// A matrix product or a convolution has a dimension of zero.
    EmptyDimension { instr: usize },
}

/// An error in words.
pub open spec fn error_text(e: CompileError) -> Seq<char> {
    match e {
        CompileError::ReadsAdvice { instr, col } => "instruction "@ + decimal(instr as int)
            + " reads advice cell "@ + decimal(col as int),
        CompileError::ReadsFutureTrace { instr, col } => "instruction "@ + decimal(instr as int)
            + " reads cell "@ + decimal(col as int) + " before it is written"@,
        CompileError::ReadsParameter { instr, col } => "instruction "@ + decimal(instr as int)
            + " reads parameter "@ + decimal(col as int) + " outside matrix B"@,
        CompileError::TraceLengthMismatch { expected, found } => "the trace has "@ + decimal(
            found as int,
        ) + " cells, not "@ + decimal(expected as int),
        CompileError::NonPositiveDivisor { instr, divisor } => "instruction "@ + decimal(
            instr as int,
        ) + " divides by "@ + decimal(divisor as int),
        CompileError::ReservedLookupType { instr } => "instruction "@ + decimal(instr as int)
            + " looks up a type kept for divisions"@,
        CompileError::MissingLookupRows { instr } => "the table has no row for instruction "@
            + decimal(instr as int),
        CompileError::AmbiguousTable { instr } =>
            "the table has two outputs for an input of instruction "@ + decimal(instr as int),
        CompileError::EmptyDimension { instr } => "instruction "@ + decimal(instr as int)
            + " has a dimension of zero"@,
    }
}

impl CompileError {
    /// The error in words.
    pub fn text(&self) -> (out: String)
        ensures
            out@ == error_text(*self),
    {
        match *self {
            CompileError::ReadsAdvice { instr, col } => then_labelled(
                labelled("instruction ", instr as i128),
                " reads advice cell ",
                col as i128,
            ),
            CompileError::ReadsFutureTrace { instr, col } => then_labelled(
                labelled("instruction ", instr as i128),
                " reads cell ",
                col as i128,
            ).concat(" before it is written"),
            CompileError::ReadsParameter { instr, col } => then_labelled(
                labelled("instruction ", instr as i128),
                " reads parameter ",
                col as i128,
            ).concat(" outside matrix B"),
            CompileError::TraceLengthMismatch { expected, found } => then_labelled(
                labelled("the trace has ", found as i128),
                " cells, not ",
                expected as i128,
            ),
            CompileError::NonPositiveDivisor { instr, divisor } => then_labelled(
                labelled("instruction ", instr as i128),
                " divides by ",
                divisor as i128,
            ),
            CompileError::ReservedLookupType { instr } => labelled(
                "instruction ",
                instr as i128,
            ).concat(" looks up a type kept for divisions"),
            CompileError::MissingLookupRows { instr } => labelled(
                "the table has no row for instruction ",
                instr as i128,
            ),
            CompileError::AmbiguousTable { instr } => labelled(
                "the table has two outputs for an input of instruction ",
                instr as i128,
            ),
            CompileError::EmptyDimension { instr } => labelled(
                "instruction ",
                instr as i128,
            ).concat(" has a dimension of zero"),
        }
    }
}

/// The number of advice cells of an instruction.
pub open spec fn advice_len(instr: Instruction) -> int {
    match instr {
        Instruction::Conv { n, m, in_channels, out_channels, start1, start2 } => in_channels as int,
        Instruction::Div { input1, input2, divisor } => 1,
        Instruction::MatMult { m, n, k, start1, start2 } => n as int,
        _ => 0,
    }
}

/// The number of constraint rows of an instruction.
pub open spec fn cons_len(instr: Instruction) -> int {
    match instr {
        Instruction::AddMult { input1, input2 } => 1,
        Instruction::Conv { n, m, in_channels, out_channels, start1, start2 } => in_channels + 1,
        Instruction::Lookup { input, tp } => 0,
        Instruction::Div { input1, input2, divisor } => 1,
        Instruction::MatMult { m, n, k, start1, start2 } => n + 1,
    }
}

/// The number of lookup rows of an instruction.
pub open spec fn lookup_len(instr: Instruction) -> int {
    match instr {
        Instruction::Lookup { input, tp } => 1,
        Instruction::Div { input1, input2, divisor } => 2,
        _ => 0,
    }
}

/// The first advice cell of instruction `k`.
pub open spec fn aux_at(instrs: Seq<Instruction>, start: int, k: int) -> int
    decreases k,
{
    if k <= 0 {
        start
    } else {
        aux_at(instrs, start, k - 1) + advice_len(instrs[k - 1])
    }
}

/// The first constraint row of instruction `k`.
pub open spec fn cr_at(instrs: Seq<Instruction>, k: int) -> int
    decreases k,
{
    if k <= 0 {
        0
    } else {
        cr_at(instrs, k - 1) + cons_len(instrs[k - 1])
    }
}

/// The first lookup row of instruction `k`.
pub open spec fn lr_at(instrs: Seq<Instruction>, k: int) -> int
    decreases k,
{
    if k <= 0 {
        0
    } else {
        lr_at(instrs, k - 1) + lookup_len(instrs[k - 1])
    }
}

/// An entry with coefficient one and no power.
pub open spec fn cell(col: int) -> Entry {
    Entry { col, val: 1, pow: 0 }
}

/// The entries for a run of cells.
pub open spec fn cells(start: int, len: int) -> Seq<Entry> {
    Seq::new(len as nat, |i: int| cell(start + i))
}

/// The entries for a run of cells, each with its index as power.
pub open spec fn graded(start: int, len: int) -> Seq<Entry> {
    Seq::new(len as nat, |i: int| Entry { col: start + i, val: 1, pow: i })
}

/// The entries for row `i` of the first matrix of a product.
pub open spec fn left_row(m: int, k: int, s1: int, i: int) -> Seq<Entry> {
    Seq::new(m as nat, |j: int| Entry { col: s1 + i * m + j, val: 1, pow: j * k })
}

/// The entries for an input plane.
pub open spec fn plane_row(n: int, side: int, s1: int, ch: int) -> Seq<Entry> {
    Seq::new(
        (n * n) as nat,
        |t: int| Entry { col: s1 + ch * (n * n) + t, val: 1, pow: (t / n) * side + t % n },
    )
}

/// The entries for the kernels of a channel.
pub open spec fn kernel_row(m: int, outs: int, side: int, s2: int, ch: int) -> Seq<Entry> {
    Seq::new(
        (outs * (m * m)) as nat,
        |t: int|
            Entry { col: s2 + ch * (outs * (m * m)) + t, val: 1, pow: kernel_pow(m, side, t) },
    )
}

/// The rows that an instruction appends to the first matrix.
pub open spec fn a_rows(instr: Instruction, out: int, aux: int) -> Seq<Seq<Entry>> {
    match instr {
        Instruction::AddMult { input1, input2 } => seq![plain_row(input1@)],
        Instruction::Conv { n, m, in_channels, out_channels, start1, start2 } => Seq::new(
            in_channels as nat,
            |ch: int| plane_row(n as int, n + m - 1, start1 as int, ch),
        ).push(cells(aux, in_channels as int)),
        Instruction::Lookup { input, tp } => Seq::empty(),
        Instruction::Div { input1, input2, divisor } => seq![plain_row(input1@)],
        Instruction::MatMult { m, n, k, start1, start2 } => Seq::new(
            n as nat,
            |i: int| left_row(m as int, k as int, start1 as int, i),
        ).push(cells(aux, n as int)),
    }
}

/// The rows that an instruction appends to the second matrix.
pub open spec fn b_rows(instr: Instruction, out: int, aux: int) -> Seq<Seq<Entry>> {
    match instr {
        Instruction::AddMult { input1, input2 } => seq![plain_row(input2@)],
        Instruction::Conv { n, m, in_channels, out_channels, start1, start2 } => Seq::new(
            in_channels as nat,
            |ch: int| kernel_row(m as int, out_channels as int, n + m - 1, start2 as int, ch),
        ).push(seq![cell(0)]),
        Instruction::Lookup { input, tp } => Seq::empty(),
        Instruction::Div { input1, input2, divisor } => seq![plain_row(input2@)],
        Instruction::MatMult { m, n, k, start1, start2 } => Seq::new(
            n as nat,
            |i: int| graded(start2 + i * k, k as int),
        ).push(seq![cell(0)]),
    }
}

/// The rows that an instruction appends to the third matrix.
pub open spec fn c_rows(instr: Instruction, out: int, aux: int) -> Seq<Seq<Entry>> {
    match instr {
        Instruction::AddMult { input1, input2 } => seq![seq![cell(out)]],
        Instruction::Conv { n, m, in_channels, out_channels, start1, start2 } => Seq::new(
            in_channels as nat,
            |ch: int| seq![cell(aux + ch)],
        ).push(graded(out, instr.outputs())),
        Instruction::Lookup { input, tp } => Seq::empty(),
        Instruction::Div { input1, input2, divisor } => seq![
            seq![Entry { col: out, val: divisor as int, pow: 0 }, cell(aux)],
        ],
        Instruction::MatMult { m, n, k, start1, start2 } => Seq::new(
            n as nat,
            |i: int| seq![cell(aux + i)],
        ).push(graded(out, instr.outputs())),
    }
}

/// The rows that an instruction appends to the lookup inputs.
pub open spec fn d_rows(instr: Instruction, out: int, aux: int) -> Seq<Seq<Entry>> {
    match instr {
        Instruction::Lookup { input, tp } => seq![plain_row(input@)],
        Instruction::Div { input1, input2, divisor } => seq![
            Seq::<Entry>::empty(),
            Seq::<Entry>::empty(),
        ],
        _ => Seq::empty(),
    }
}

/// The rows that an instruction appends to the lookup outputs.
pub open spec fn e_rows(instr: Instruction, out: int, aux: int) -> Seq<Seq<Entry>> {
    match instr {
        Instruction::Lookup { input, tp } => seq![seq![cell(out)]],
        Instruction::Div { input1, input2, divisor } => seq![seq![cell(aux)], seq![cell(out)]],
        _ => Seq::empty(),
    }
}

/// Which of the rows that an instruction appends to the first and second matrices carry
/// powers of the randomizer: those of the randomized matrices and planes.
pub open spec fn factor_marks(instr: Instruction) -> Seq<bool> {
    match instr {
        Instruction::Conv { n, m, in_channels, out_channels, start1, start2 } => Seq::new(
            in_channels as nat,
            |i: int| true,
        ).push(false),
        Instruction::Lookup { input, tp } => Seq::empty(),
        Instruction::MatMult { m, n, k, start1, start2 } => Seq::new(
            n as nat,
            |i: int| true,
        ).push(false),
        _ => seq![false],
    }
}

/// Which of the rows that an instruction appends to the third matrix carry powers of the
/// randomizer: those of the randomized outputs.
pub open spec fn result_marks(instr: Instruction) -> Seq<bool> {
    match instr {
        Instruction::Conv { n, m, in_channels, out_channels, start1, start2 } => Seq::new(
            in_channels as nat,
            |i: int| false,
        ).push(true),
        Instruction::Lookup { input, tp } => Seq::empty(),
        Instruction::MatMult { m, n, k, start1, start2 } => Seq::new(
            n as nat,
            |i: int| false,
        ).push(true),
        _ => seq![false],
    }
}

/// The marks of the rows of the first `k` instructions: on the two factors, and on the
/// results.
pub open spec fn marks_of(instrs: Seq<Instruction>, k: int) -> (Seq<bool>, Seq<bool>)
    decreases k,
{
    if k <= 0 {
        (Seq::empty(), Seq::empty())
    } else {
        let before = marks_of(instrs, k - 1);
        (before.0 + factor_marks(instrs[k - 1]), before.1 + result_marks(instrs[k - 1]))
    }
}

/// No row carries powers of the randomizer.
pub open spec fn unmarked(n: nat) -> Seq<bool> {
    Seq::new(n, |i: int| false)
}

/// The entries of a circuit carry powers of the randomizer where its program says so.
pub open spec fn circuit_marked(c: Circuit, instrs: Seq<Instruction>) -> bool {
    let marks = marks_of(instrs, instrs.len() as int);
    &&& c.a.marked(marks.0)
    &&& c.b.marked(marks.0)
    &&& c.c.marked(marks.1)
    &&& c.d.marked(unmarked(c.d@.len()))
    &&& c.e.marked(unmarked(c.e@.len()))
}

/// The marks of the lookup rows of an instruction.
pub open spec fn lookup_tags(instr: Instruction) -> Seq<int> {
    match instr {
        Instruction::Lookup { input, tp } => seq![tp.tag_of()],
        Instruction::Div { input1, input2, divisor } => seq![
            LookupType::Range(divisor).tag_of(),
            LookupType::Bound(QUOTIENT_BOUND).tag_of(),
        ],
        _ => Seq::empty(),
    }
}

/// The rows of the first `k` instructions in each of the matrices.
pub ghost struct Rows {
    pub a: Seq<Seq<Entry>>,
    pub b: Seq<Seq<Entry>>,
    pub c: Seq<Seq<Entry>>,
    pub d: Seq<Seq<Entry>>,
    pub e: Seq<Seq<Entry>>,
    pub tp: Seq<int>,
}

/// The rows that the first `k` instructions append, with outputs from cell
/// `start` and advice from cell `aux_start` on.
pub open spec fn rows_of(instrs: Seq<Instruction>, k: int, start: int, aux_start: int) -> Rows
    decreases k,
{
    if k <= 0 {
        Rows {
            a: Seq::empty(),
            b: Seq::empty(),
            c: Seq::empty(),
            d: Seq::empty(),
            e: Seq::empty(),
            tp: Seq::empty(),
        }
    } else {
        let before = rows_of(instrs, k - 1, start, aux_start);
        let instr = instrs[k - 1];
        let out = out_at(instrs, start, k - 1);
        let aux = aux_at(instrs, aux_start, k - 1);
        Rows {
            a: before.a + a_rows(instr, out, aux),
            b: before.b + b_rows(instr, out, aux),
            c: before.c + c_rows(instr, out, aux),
            d: before.d + d_rows(instr, out, aux),
            e: before.e + e_rows(instr, out, aux),
            tp: before.tp + lookup_tags(instr),
        }
    }
}

/// The circuit that a program compiles to.
pub open spec fn circuit_of(
    instrs: Seq<Instruction>,
    weights: Seq<i64>,
    input_len: int,
    aux_start: int,
    table: Seq<(int, int, int)>,
) -> CircuitView {
    let q = instrs.len() as int;
    let rows = rows_of(instrs, q, weights.len() + input_len, aux_start);
    CircuitView {
        a: rows.a,
        b: rows.b,
        c: rows.c,
        d: rows.d,
        e: rows.e,
        tp: rows.tp,
        weights: ints(weights),
        weight_len: weights.len() as int,
        z_len: aux_at(instrs, aux_start, q),
        table,
    }
}

/// What is wrong with reading a cell, if anything. Cells below `least` are
/// parameters that may not be read.
pub open spec fn read_error(
    instr: usize,
    col: usize,
    out: int,
    aux_start: int,
    least: int,
) -> Option<CompileError> {
    if col >= aux_start {
        Some(CompileError::ReadsAdvice { instr, col })
    } else if col >= out {
        Some(CompileError::ReadsFutureTrace { instr, col })
    } else if col < least {
        Some(CompileError::ReadsParameter { instr, col })
    } else {
        None
    }
}

/// The first thing that is wrong with the reads of a row from entry `k` on.
pub open spec fn row_error(
    instr: usize,
    row: Seq<(usize, i64)>,
    out: int,
    aux_start: int,
    least: int,
    k: int,
) -> Option<CompileError>
    decreases row.len() - k,
{
    if k >= row.len() {
        None
    } else {
        match read_error(instr, row[k].0, out, aux_start, least) {
            Some(e) => Some(e),
            None => row_error(instr, row, out, aux_start, least, k + 1),
        }
    }
}

/// What is wrong with reading a run of cells, if anything.
pub open spec fn block_error(
    instr: usize,
    start: int,
    len: int,
    out: int,
    aux_start: int,
    least: int,
) -> Option<CompileError> {
    if start + len > aux_start {
        Some(CompileError::ReadsAdvice { instr, col: (start + len - 1) as usize })
    } else if start + len > out {
        Some(CompileError::ReadsFutureTrace { instr, col: (start + len - 1) as usize })
    } else if start < least {
        Some(CompileError::ReadsParameter { instr, col: start as usize })
    } else {
        None
    }
}

/// The first of two errors.
pub open spec fn first(a: Option<CompileError>, b: Option<CompileError>) -> Option<CompileError> {
    match a {
        Some(e) => Some(e),
        None => b,
    }
}

/// A table has a row with the mark.
pub open spec fn has_tag(t: Seq<(int, int, int)>, tag: int) -> bool {
    exists|r: int| 0 <= r < t.len() && cong((#[trigger] t[r]).2, tag)
}

/// Two rows of a table have the mark and the same input, and different outputs.
pub open spec fn clash(t: Seq<(int, int, int)>, tag: int, r: int, s: int) -> bool {
    &&& cong(t[r].2, tag)
    &&& cong(t[s].2, tag)
    &&& cong(t[r].0, t[s].0)
    &&& !cong(t[r].1, t[s].1)
}

/// The rows of a table with the mark are not a function.
pub open spec fn ambiguous(t: Seq<(int, int, int)>, tag: int) -> bool {
    exists|r: int, s: int|
        0 <= r < t.len() && 0 <= s < t.len() && #[trigger] clash(t, tag, r, s)
}

/// What is wrong with an instruction, if anything.
pub open spec fn instr_error(
    idx: usize,
    instr: Instruction,
    out: int,
    aux_start: int,
    weight_len: int,
    table: Seq<(int, int, int)>,
) -> Option<CompileError> {
    match instr {
        Instruction::AddMult { input1, input2 } => first(
            row_error(idx, input1@, out, aux_start, weight_len, 0),
            row_error(idx, input2@, out, aux_start, 0, 0),
        ),
        Instruction::Conv { n, m, in_channels, out_channels, start1, start2 } => {
            if n == 0 || m == 0 || in_channels == 0 || out_channels == 0 {
                Some(CompileError::EmptyDimension { instr: idx })
            } else {
                first(
                    block_error(
                        idx,
                        start1 as int,
                        in_channels * (n * n),
                        out,
                        aux_start,
                        weight_len,
                    ),
                    block_error(
                        idx,
                        start2 as int,
                        in_channels * (out_channels * (m * m)),
                        out,
                        aux_start,
                        0,
                    ),
                )
            }
        },
        Instruction::Lookup { input, tp } => {
            let tag = tp.tag_of();
            if tp is Range || tp is Bound {
                Some(CompileError::ReservedLookupType { instr: idx })
            } else {
                first(
                    row_error(idx, input@, out, aux_start, weight_len, 0),
                    if !has_tag(table, tag) {
                        Some(CompileError::MissingLookupRows { instr: idx })
                    } else if ambiguous(table, tag) {
                        Some(CompileError::AmbiguousTable { instr: idx })
                    } else {
                        None
                    },
                )
            }
        },
        Instruction::Div { input1, input2, divisor } => {
            if divisor <= 0 {
                Some(CompileError::NonPositiveDivisor { instr: idx, divisor })
            } else {
                first(
                    first(
                        row_error(idx, input1@, out, aux_start, weight_len, 0),
                        row_error(idx, input2@, out, aux_start, 0, 0),
                    ),
                    if !has_tag(table, LookupType::Range(divisor).tag_of()) || !has_tag(
                        table,
                        LookupType::Bound(QUOTIENT_BOUND).tag_of(),
                    ) {
                        Some(CompileError::MissingLookupRows { instr: idx })
                    } else {
                        None
                    },
                )
            }
        },
        Instruction::MatMult { m, n, k, start1, start2 } => {
            if n == 0 || m == 0 || k == 0 {
                Some(CompileError::EmptyDimension { instr: idx })
            } else {
                first(
                    block_error(idx, start1 as int, n * m, out, aux_start, weight_len),
                    block_error(idx, start2 as int, n * k, out, aux_start, 0),
                )
            }
        },
    }
}

/// The first thing that is wrong with a program from instruction `k` on.
pub open spec fn program_error(
    instrs: Seq<Instruction>,
    k: int,
    start: int,
    aux_start: int,
    weight_len: int,
    table: Seq<(int, int, int)>,
) -> Option<CompileError>
    decreases instrs.len() - k,
{
    if k >= instrs.len() {
        if out_at(instrs, start, k) != aux_start {
            Some(
                CompileError::TraceLengthMismatch {
                    expected: aux_start as usize,
                    found: out_at(instrs, start, k) as usize,
                },
            )
        } else {
            None
        }
    } else {
        first(
            instr_error(
                k as usize,
                instrs[k],
                out_at(instrs, start, k),
                aux_start,
                weight_len,
                table,
            ),
            program_error(instrs, k + 1, start, aux_start, weight_len, table),
        )
    }
}

/// What is wrong with a program, if anything.
pub open spec fn validity_error(
    instrs: Seq<Instruction>,
    weight_len: int,
    input_len: int,
    aux_start: int,
    table: Seq<(int, int, int)>,
) -> Option<CompileError> {
    program_error(instrs, 0, weight_len + input_len, aux_start, weight_len, table)
}

/// The sizes that an instruction speaks of are words.
pub open spec fn operands_fit(instr: Instruction) -> bool {
    match instr {
        Instruction::Conv { n, m, in_channels, out_channels, start1, start2 } => {
            &&& instr.outputs_fit()
            &&& (n + m - 1) * (n + m - 1) <= usize::MAX
            &&& n * n <= usize::MAX
            &&& m * m <= usize::MAX
            &&& out_channels * (m * m) <= usize::MAX
            &&& start1 + in_channels * (n * n) <= usize::MAX
            &&& start2 + in_channels * (out_channels * (m * m)) <= usize::MAX
        },
        Instruction::MatMult { m, n, k, start1, start2 } => {
            &&& instr.outputs_fit()
            &&& start1 + n * m <= usize::MAX
            &&& start2 + n * k <= usize::MAX
        },
        _ => true,
    }
}

/// All the sizes and counters of a program are words.
pub open spec fn program_fits(instrs: Seq<Instruction>, start: int, aux_start: int) -> bool {
    &&& start <= usize::MAX
    &&& forall|k: int| 0 <= k < instrs.len() ==> operands_fit(#[trigger] instrs[k])
    &&& forall|k: int| 0 <= k <= instrs.len() ==> #[trigger] out_at(instrs, start, k) <= usize::MAX
    &&& forall|k: int|
        0 <= k <= instrs.len() ==> #[trigger] aux_at(instrs, aux_start, k) <= usize::MAX
    &&& forall|k: int| 0 <= k <= instrs.len() ==> #[trigger] cr_at(instrs, k) <= usize::MAX
    &&& forall|k: int| 0 <= k <= instrs.len() ==> #[trigger] lr_at(instrs, k) <= usize::MAX
}

fn row_error_exec(
    instr: usize,
    row: &Vec<(usize, i64)>,
    out: usize,
    aux_start: usize,
    least: usize,
) -> (r: Option<CompileError>)
    ensures
        r == row_error(instr, row@, out as int, aux_start as int, least as int, 0),
{
    for k in 0..row.len()
        invariant
            row_error(instr, row@, out as int, aux_start as int, least as int, 0) == row_error(
                instr,
                row@,
                out as int,
                aux_start as int,
                least as int,
                k as int,
            ),
    {
        let col: usize = row[k].0;
        if col >= aux_start {
            return Some(CompileError::ReadsAdvice { instr, col });
        } else if col >= out {
            return Some(CompileError::ReadsFutureTrace { instr, col });
        } else if col < least {
            return Some(CompileError::ReadsParameter { instr, col });
        }
    }
    None
}

fn block_error_exec(
    instr: usize,
    start: usize,
    len: usize,
    out: usize,
    aux_start: usize,
    least: usize,
) -> (r: Option<CompileError>)
    requires
        start + len <= usize::MAX,
        len > 0,
    ensures
        r == block_error(
            instr,
            start as int,
            len as int,
            out as int,
            aux_start as int,
            least as int,
        ),
{
    if start + len > aux_start {
        Some(CompileError::ReadsAdvice { instr, col: start + len - 1 })
    } else if start + len > out {
        Some(CompileError::ReadsFutureTrace { instr, col: start + len - 1 })
    } else if start < least {
        Some(CompileError::ReadsParameter { instr, col: start })
    } else {
        None
    }
}

fn first_exec(a: Option<CompileError>, b: Option<CompileError>) -> (r: Option<CompileError>)
    ensures
        r == first(a, b),
{
    match a {
        Some(e) => Some(e),
        None => b,
    }
}

fn has_tag_exec(t: &Vec<(Fr, Fr, Fr)>, tag: i64) -> (r: bool)
    ensures
        r == has_tag(table_rows(t@), tag as int),
{
    let want = Fr::from_i64(tag);
    let ghost rows = table_rows(t@);
    for i in 0..t.len()
        invariant
            rows == table_rows(t@),
            want@ == tag,
            forall|j: int| 0 <= j < i ==> !cong((#[trigger] rows[j]).2, tag as int),
    {
        assert(rows[i as int].2 == t[i as int].2@);
        if t[i].2 == want {
            return true;
        }
    }
    false
}

fn ambiguous_exec(t: &Vec<(Fr, Fr, Fr)>, tag: i64) -> (r: bool)
    ensures
        r == ambiguous(table_rows(t@), tag as int),
{
    let want = Fr::from_i64(tag);
    let ghost rows = table_rows(t@);
    let n: usize = t.len();
    for i in 0..n
        invariant
            n == t.len(),
            rows == table_rows(t@),
            want@ == tag,
            forall|p: int, q: int|
                0 <= p < i && 0 <= q < n ==> !#[trigger] clash(rows, tag as int, p, q),
    {
        assert(rows[i as int] == (t[i as int].0@, t[i as int].1@, t[i as int].2@));
        if t[i].2 == want {
            for j in 0..n
                invariant
                    n == t.len(),
                    i < n,
                    rows == table_rows(t@),
                    want@ == tag,
                    rows[i as int] == (t[i as int].0@, t[i as int].1@, t[i as int].2@),
                    cong(rows[i as int].2, tag as int),
                    forall|q: int| 0 <= q < j ==> !#[trigger] clash(rows, tag as int, i as int, q),
            {
                assert(rows[j as int] == (t[j as int].0@, t[j as int].1@, t[j as int].2@));
                if t[j].2 == want && t[i].0 == t[j].0 && t[i].1 != t[j].1 {
                    assert(clash(rows, tag as int, i as int, j as int));
                    return true;
                }
            }
        }
    }
    false
}

fn instr_error_exec(
    idx: usize,
    instr: &Instruction,
    out: usize,
    aux_start: usize,
    weight_len: usize,
    table: &Vec<(Fr, Fr, Fr)>,
) -> (r: Option<CompileError>)
    requires
        operands_fit(*instr),
    ensures
        r == instr_error(
            idx,
            *instr,
            out as int,
            aux_start as int,
            weight_len as int,
            table_rows(table@),
        ),
{
    match instr {
        Instruction::AddMult { input1, input2 } => first_exec(
            row_error_exec(idx, input1, out, aux_start, weight_len),
            row_error_exec(idx, input2, out, aux_start, 0),
        ),
        Instruction::Conv { n, m, in_channels, out_channels, start1, start2 } => {
            if *n == 0 || *m == 0 || *in_channels == 0 || *out_channels == 0 {
                return Some(CompileError::EmptyDimension { instr: idx });
            }
            proof {
                let nn = *n as int;
                let mm = *m as int;
                let ii = *in_channels as int;
                let oo = *out_channels as int;
                assert(nn * nn > 0 && mm * mm > 0) by (nonlinear_arith)
                    requires
                        nn > 0,
                        mm > 0,
                ;
                assert(ii * (nn * nn) > 0 && oo * (mm * mm) > 0) by (nonlinear_arith)
                    requires
                        nn * nn > 0,
                        mm * mm > 0,
                        ii > 0,
                        oo > 0,
                ;
                assert(ii * (oo * (mm * mm)) > 0) by (nonlinear_arith)
                    requires
                        oo * (mm * mm) > 0,
                        ii > 0,
                ;
            }
            let planes: usize = *in_channels * (*n * *n);
            let kernels: usize = *in_channels * (*out_channels * (*m * *m));
            first_exec(
                block_error_exec(idx, *start1, planes, out, aux_start, weight_len),
                block_error_exec(idx, *start2, kernels, out, aux_start, 0),
            )
        },
        Instruction::Lookup { input, tp } => {
            match tp {
                LookupType::Range(_) => Some(CompileError::ReservedLookupType { instr: idx }),
                LookupType::Bound(_) => Some(CompileError::ReservedLookupType { instr: idx }),
                _ => {
                    let tag: i64 = tp.tag();
                    let e = row_error_exec(idx, input, out, aux_start, weight_len);
                    let t = if !has_tag_exec(table, tag) {
                        Some(CompileError::MissingLookupRows { instr: idx })
                    } else if ambiguous_exec(table, tag) {
                        Some(CompileError::AmbiguousTable { instr: idx })
                    } else {
                        None
                    };
                    first_exec(e, t)
                },
            }
        },
        Instruction::Div { input1, input2, divisor } => {
            if *divisor <= 0 {
                return Some(CompileError::NonPositiveDivisor { instr: idx, divisor: *divisor });
            }
            let e = first_exec(
                row_error_exec(idx, input1, out, aux_start, weight_len),
                row_error_exec(idx, input2, out, aux_start, 0),
            );
            let range: i64 = LookupType::Range(*divisor).tag();
            let bound: i64 = LookupType::Bound(QUOTIENT_BOUND).tag();
            let t = if !has_tag_exec(table, range) || !has_tag_exec(table, bound) {
                Some(CompileError::MissingLookupRows { instr: idx })
            } else {
                None
            };
            first_exec(e, t)
        },
        Instruction::MatMult { m, n, k, start1, start2 } => {
            if *n == 0 || *m == 0 || *k == 0 {
                return Some(CompileError::EmptyDimension { instr: idx });
            }
            proof {
                let nn = *n as int;
                let mm = *m as int;
                let kk = *k as int;
                assert(nn * mm > 0 && nn * kk > 0) by (nonlinear_arith)
                    requires
                        nn > 0,
                        mm > 0,
                        kk > 0,
                ;
            }
            first_exec(
                block_error_exec(idx, *start1, *n * *m, out, aux_start, weight_len),
                block_error_exec(idx, *start2, *n * *k, out, aux_start, 0),
            )
        },
    }
}

/// The number of advice cells of an instruction.
fn advice_len_exec(instr: &Instruction) -> (r: usize)
    ensures
        r == advice_len(*instr),
{
    match instr {
        Instruction::Conv { n: _, m: _, in_channels, out_channels: _, start1: _, start2: _ } => {
            *in_channels
        },
        Instruction::Div { input1: _, input2: _, divisor: _ } => 1,
        Instruction::MatMult { m: _, n, k: _, start1: _, start2: _ } => *n,
        _ => 0,
    }
}

/// Matrices under construction.
pub(crate) struct Builder {
    a: SparseMatrix,
    b: SparseMatrix,
    c: SparseMatrix,
    d: SparseMatrix,
    e: SparseMatrix,
    tp: Vec<LookupType>,
}

impl View for Builder {
    type V = Rows;

    closed spec fn view(&self) -> Rows {
        Rows {
            a: self.a@,
            b: self.b@,
            c: self.c@,
            d: self.d@,
            e: self.e@,
            tp: self.tp@.map_values(|t: LookupType| t.tag_of()),
        }
    }
}

impl Builder {
    /// The entries carry powers where the marks on the two factors and on the results say so.
    spec fn marked(&self, factors: Seq<bool>, results: Seq<bool>) -> bool {
        &&& self.a.marked(factors)
        &&& self.b.marked(factors)
        &&& self.c.marked(results)
        &&& self.d.marked(unmarked(self.d@.len()))
        &&& self.e.marked(unmarked(self.e@.len()))
    }

    spec fn tags_fit(&self) -> bool {
        forall|i: int| 0 <= i < self.tp.len() ==> (#[trigger] self.tp[i]).tag_fits()
    }

    fn one_cell(col: usize) -> (r: Vec<(usize, i64)>)
        ensures
            plain_row(r@) == seq![cell(col as int)],
    {
        let mut r: Vec<(usize, i64)> = Vec::new();
        r.push((col, 1));
        assert(plain_row(r@) =~= seq![cell(col as int)]);
        r
    }

    fn cells_exec(start: usize, len: usize) -> (r: Vec<(usize, i64)>)
        requires
            start + len <= usize::MAX,
        ensures
            plain_row(r@) == cells(start as int, len as int),
    {
        let mut r: Vec<(usize, i64)> = Vec::new();
        for i in 0..len
            invariant
                start + len <= usize::MAX,
                r.len() == i,
                forall|j: int| 0 <= j < i ==> (#[trigger] r[j]) == ((start + j) as usize, 1i64),
        {
            r.push((start + i, 1));
        }
        assert(plain_row(r@) =~= cells(start as int, len as int));
        r
    }

    pub(crate) fn graded_exec(start: usize, len: usize) -> (r: Vec<(usize, i64, Option<usize>)>)
        requires
            start + len <= usize::MAX,
        ensures
            powered_row(r@) == graded(start as int, len as int),
            all_powered(r@),
    {
        let mut r: Vec<(usize, i64, Option<usize>)> = Vec::new();
        for i in 0..len
            invariant
                start + len <= usize::MAX,
                r.len() == i,
                forall|j: int|
                    0 <= j < i ==> (#[trigger] r[j]) == (
                        (start + j) as usize,
                        1i64,
                        Some(j as usize),
                    ),
        {
            r.push((start + i, 1, Some(i)));
        }
        assert(powered_row(r@) =~= graded(start as int, len as int));
        r
    }

    pub(crate) fn left_row_exec(m: usize, n: usize, k: usize, s1: usize, i: usize) -> (r: Vec<
        (usize, i64, Option<usize>),
    >)
        requires
            i < n,
            s1 + n * m <= usize::MAX,
            m * k <= usize::MAX,
        ensures
            powered_row(r@) == left_row(m as int, k as int, s1 as int, i as int),
            all_powered(r@),
    {
        let mut r: Vec<(usize, i64, Option<usize>)> = Vec::new();
        assert(0 <= i * m && i * m + m <= n * m) by (nonlinear_arith)
            requires
                0 <= i,
                i + 1 <= n,
                m >= 0,
        ;
        let base: usize = s1 + i * m;
        let ghost want = left_row(m as int, k as int, s1 as int, i as int);
        for j in 0..m
            invariant
                base == s1 + i * m,
                base + m <= usize::MAX,
                m * k <= usize::MAX,
                r.len() == j,
                want == left_row(m as int, k as int, s1 as int, i as int),
                forall|l: int| 0 <= l < j ==> powered_entry(#[trigger] r[l]) == want[l],
                all_powered(r@),
        {
            assert(0 <= j * k <= m * k) by (nonlinear_arith)
                requires
                    0 <= j < m,
                    k >= 0,
            ;
            r.push((base + j, 1, Some(j * k)));
        }
        assert(powered_row(r@) =~= want) by {
            assert forall|l: int| 0 <= l < want.len() implies powered_row(r@)[l] == want[l] by {
                assert(powered_entry(r[l]) == want[l]);
            }
        }
        r
    }

    pub(crate) fn plane_row_exec(n: usize, m: usize, ins: usize, s1: usize, ch: usize) -> (r: Vec<
        (usize, i64, Option<usize>),
    >)
        requires
            ch < ins,
            n + m >= 1,
            n + m <= usize::MAX,
            (n + m - 1) * (n + m - 1) <= usize::MAX,
            n * n <= usize::MAX,
            s1 + ins * (n * n) <= usize::MAX,
        ensures
            powered_row(r@) == plane_row(n as int, n + m - 1, s1 as int, ch as int),
            all_powered(r@),
    {
        let side: usize = n + m - 1;
        assert(0 <= n * n) by (nonlinear_arith)
            requires
                n >= 0,
        ;
        let area: usize = n * n;
        assert(0 <= ch * area && ch * area + area <= ins * area) by (nonlinear_arith)
            requires
                0 <= ch,
                ch + 1 <= ins,
                area >= 0,
        ;
        let base: usize = s1 + ch * area;
        let ghost want = plane_row(n as int, side as int, s1 as int, ch as int);
        let mut r: Vec<(usize, i64, Option<usize>)> = Vec::new();
        for t in 0..area
            invariant
                side == n + m - 1,
                side * side <= usize::MAX,
                area == n * n,
                area <= usize::MAX,
                base == s1 + ch * area,
                base + area <= usize::MAX,
                want == plane_row(n as int, side as int, s1 as int, ch as int),
                r.len() == t,
                forall|l: int| 0 <= l < t ==> powered_entry(#[trigger] r[l]) == want[l],
                all_powered(r@),
        {
            assert(n > 0) by (nonlinear_arith)
                requires
                    0 <= t < n * n,
                    n >= 0,
            ;
            let i: usize = t / n;
            let j: usize = t % n;
            proof {
                lemma_fundamental_div_mod(t as int, n as int);
                assert(i < n) by (nonlinear_arith)
                    requires
                        t == n * i + j,
                        j >= 0,
                        t < n * n,
                        n > 0,
                ;
                crate::program::lemma_pow_bound(
                    n as int,
                    m as int,
                    side as int,
                    i as int,
                    j as int,
                );
            }
            r.push((base + t, 1, Some(i * side + j)));
        }
        assert(powered_row(r@) =~= want) by {
            assert forall|l: int| 0 <= l < want.len() implies powered_row(r@)[l] == want[l] by {
                assert(powered_entry(r[l]) == want[l]);
            }
        }
        r
    }

    pub(crate) fn kernel_row_exec(
        n: usize,
        m: usize,
        ins: usize,
        outs: usize,
        s2: usize,
        ch: usize,
    ) -> (r: Vec<(usize, i64, Option<usize>)>)
        requires
            ch < ins,
            n + m >= 1,
            n + m <= usize::MAX,
            (n + m - 1) * (n + m - 1) <= usize::MAX,
            outs * (n + m - 1) * (n + m - 1) <= usize::MAX,
            m * m <= usize::MAX,
            outs * (m * m) <= usize::MAX,
            s2 + ins * (outs * (m * m)) <= usize::MAX,
        ensures
            powered_row(r@) == kernel_row(
                m as int,
                outs as int,
                n + m - 1,
                s2 as int,
                ch as int,
            ),
            all_powered(r@),
    {
        let side: usize = n + m - 1;
        assert(0 <= m * m && 0 <= side * side) by (nonlinear_arith)
            requires
                m >= 0,
                side >= 0,
        ;
        let plane: usize = side * side;
        let kernel: usize = m * m;
        assert(0 <= outs * kernel) by (nonlinear_arith)
            requires
                outs >= 0,
                kernel >= 0,
        ;
        let block: usize = outs * kernel;
        assert(0 <= ch * block && ch * block + block <= ins * block) by (nonlinear_arith)
            requires
                0 <= ch,
                ch + 1 <= ins,
                block >= 0,
        ;
        assert(outs * plane <= usize::MAX) by (nonlinear_arith)
            requires
                outs * side * side <= usize::MAX,
                plane == side * side,
        ;
        let base: usize = s2 + ch * block;
        let ghost want = kernel_row(m as int, outs as int, side as int, s2 as int, ch as int);
        let mut r: Vec<(usize, i64, Option<usize>)> = Vec::new();
        for t in 0..block
            invariant
                side == n + m - 1,
                plane == side * side,
                kernel == m * m,
                block == outs * kernel,
                block <= usize::MAX,
                outs * plane <= usize::MAX,
                base == s2 + ch * block,
                base + block <= usize::MAX,
                want == kernel_row(m as int, outs as int, side as int, s2 as int, ch as int),
                r.len() == t,
                forall|l: int| 0 <= l < t ==> powered_entry(#[trigger] r[l]) == want[l],
                all_powered(r@),
        {
            assert(m > 0) by (nonlinear_arith)
                requires
                    0 <= t < outs * kernel,
                    kernel == m * m,
                    m >= 0,
            ;
            proof {
                crate::program::lemma_kernel_pow_bound(
                    n as int,
                    m as int,
                    outs as int,
                    side as int,
                    t as int,
                );
                assert(kernel > 0) by (nonlinear_arith)
                    requires
                        kernel == m * m,
                        m > 0,
                ;
            }
            let o: usize = t / kernel;
            let u: usize = (t / m) % m;
            let v: usize = t % m;
            r.push((base + t, 1, Some(o * plane + (m - 1 - u) * side + (m - 1 - v))));
        }
        assert(powered_row(r@) =~= want) by {
            assert forall|l: int| 0 <= l < want.len() implies powered_row(r@)[l] == want[l] by {
                assert(powered_entry(r[l]) == want[l]);
            }
        }
        r
    }

    fn emit_matmult(
        &mut self,
        m: usize,
        n: usize,
        k: usize,
        s1: usize,
        s2: usize,
        out: usize,
        aux: usize,
        Ghost(factors): Ghost<Seq<bool>>,
        Ghost(results): Ghost<Seq<bool>>,
    )
        requires
            old(self).marked(factors, results),
            operands_fit((Instruction::MatMult { m, n, k, start1: s1, start2: s2 })),
            out + m * k <= usize::MAX,
            aux + n <= usize::MAX,
        ensures
            ({
                let instr = Instruction::MatMult { m, n, k, start1: s1, start2: s2 };
                final(self)@ == (Rows {
                    a: old(self)@.a + a_rows(instr, out as int, aux as int),
                    b: old(self)@.b + b_rows(instr, out as int, aux as int),
                    c: old(self)@.c + c_rows(instr, out as int, aux as int),
                    ..old(self)@
                })
            }),
            final(self).tp@ == old(self).tp@,
            ({
                let instr = Instruction::MatMult { m, n, k, start1: s1, start2: s2 };
                final(self).marked(
                    factors + factor_marks(instr),
                    results + result_marks(instr),
                )
            }),
    {
        let ghost instr = Instruction::MatMult { m, n, k, start1: s1, start2: s2 };
        let ghost start = self@;
        let ghost ar = a_rows(instr, out as int, aux as int);
        let ghost br = b_rows(instr, out as int, aux as int);
        let ghost cr = c_rows(instr, out as int, aux as int);
        let ghost fm = factor_marks(instr);
        let ghost rm = result_marks(instr);
        proof {
            assert(factors + fm.take(0) =~= factors);
            assert(results + rm.take(0) =~= results);
            assert(self.a@ =~= start.a + ar.take(0));
            assert(self.b@ =~= start.b + br.take(0));
            assert(self.c@ =~= start.c + cr.take(0));
        }
        for i in 0..n
            invariant
                instr == (Instruction::MatMult { m, n, k, start1: s1, start2: s2 }),
                operands_fit(instr),
                aux + n <= usize::MAX,
                ar == a_rows(instr, out as int, aux as int),
                br == b_rows(instr, out as int, aux as int),
                cr == c_rows(instr, out as int, aux as int),
                fm == factor_marks(instr),
                rm == result_marks(instr),
                self.marked(factors + fm.take(i as int), results + rm.take(i as int)),
                self@.a == start.a + ar.take(i as int),
                self@.b == start.b + br.take(i as int),
                self@.c == start.c + cr.take(i as int),
                self@.d == start.d,
                self@.e == start.e,
                self.tp@ == old(self).tp@,
        {
            assert(0 <= i * k && i * k + k <= n * k) by (nonlinear_arith)
                requires
                    0 <= i,
                    i + 1 <= n,
                    k >= 0,
            ;
            let left = Self::left_row_exec(m, n, k, s1, i);
            let right = Self::graded_exec(s2 + i * k, k);
            self.a.append_with_idx(&left);
            self.b.append_with_idx(&right);
            self.c.append(&Self::one_cell(aux + i));
            proof {
                assert(factors + fm.take(i + 1) =~= (factors + fm.take(i as int)).push(true));
                assert(results + rm.take(i + 1) =~= (results + rm.take(i as int)).push(false));
                assert(start.a + ar.take(i + 1) =~= (start.a + ar.take(i as int)).push(
                    ar[i as int],
                ));
                assert(start.b + br.take(i + 1) =~= (start.b + br.take(i as int)).push(
                    br[i as int],
                ));
                assert(start.c + cr.take(i + 1) =~= (start.c + cr.take(i as int)).push(
                    cr[i as int],
                ));
            }
        }
        proof {
            assert(0 <= m * k) by (nonlinear_arith)
                requires
                    m >= 0,
                    k >= 0,
            ;
        }
        self.a.append(&Self::cells_exec(aux, n));
        self.b.append(&Self::one_cell(0));
        let outs = Self::graded_exec(out, m * k);
        self.c.append_with_idx(&outs);
        proof {
            assert(factors + fm =~= (factors + fm.take(n as int)).push(false));
            assert(results + rm =~= (results + rm.take(n as int)).push(true));
            assert(start.a + ar =~= (start.a + ar.take(n as int)).push(ar[n as int]));
            assert(start.b + br =~= (start.b + br.take(n as int)).push(br[n as int]));
            assert(start.c + cr =~= (start.c + cr.take(n as int)).push(cr[n as int]));
        }
    }

    fn emit_conv(
        &mut self,
        n: usize,
        m: usize,
        ins: usize,
        outs: usize,
        s1: usize,
        s2: usize,
        out: usize,
        aux: usize,
        Ghost(factors): Ghost<Seq<bool>>,
        Ghost(results): Ghost<Seq<bool>>,
    )
        requires
            old(self).marked(factors, results),
            operands_fit(
                (Instruction::Conv {
                    n,
                    m,
                    in_channels: ins,
                    out_channels: outs,
                    start1: s1,
                    start2: s2,
                }),
            ),
            out + outs * (n + m - 1) * (n + m - 1) <= usize::MAX,
            aux + ins <= usize::MAX,
        ensures
            ({
                let instr = Instruction::Conv {
                    n,
                    m,
                    in_channels: ins,
                    out_channels: outs,
                    start1: s1,
                    start2: s2,
                };
                final(self)@ == (Rows {
                    a: old(self)@.a + a_rows(instr, out as int, aux as int),
                    b: old(self)@.b + b_rows(instr, out as int, aux as int),
                    c: old(self)@.c + c_rows(instr, out as int, aux as int),
                    ..old(self)@
                })
            }),
            final(self).tp@ == old(self).tp@,
            ({
                let instr = Instruction::Conv {
                    n,
                    m,
                    in_channels: ins,
                    out_channels: outs,
                    start1: s1,
                    start2: s2,
                };
                final(self).marked(
                    factors + factor_marks(instr),
                    results + result_marks(instr),
                )
            }),
    {
        let ghost instr = Instruction::Conv {
            n,
            m,
            in_channels: ins,
            out_channels: outs,
            start1: s1,
            start2: s2,
        };
        let ghost start = self@;
        let ghost ar = a_rows(instr, out as int, aux as int);
        let ghost br = b_rows(instr, out as int, aux as int);
        let ghost cr = c_rows(instr, out as int, aux as int);
        let ghost fm = factor_marks(instr);
        let ghost rm = result_marks(instr);
        proof {
            assert(factors + fm.take(0) =~= factors);
            assert(results + rm.take(0) =~= results);
            assert(self.a@ =~= start.a + ar.take(0));
            assert(self.b@ =~= start.b + br.take(0));
            assert(self.c@ =~= start.c + cr.take(0));
        }
        for ch in 0..ins
            invariant
                instr == (Instruction::Conv {
                    n,
                    m,
                    in_channels: ins,
                    out_channels: outs,
                    start1: s1,
                    start2: s2,
                }),
                operands_fit(instr),
                aux + ins <= usize::MAX,
                ar == a_rows(instr, out as int, aux as int),
                br == b_rows(instr, out as int, aux as int),
                cr == c_rows(instr, out as int, aux as int),
                fm == factor_marks(instr),
                rm == result_marks(instr),
                self.marked(factors + fm.take(ch as int), results + rm.take(ch as int)),
                self@.a == start.a + ar.take(ch as int),
                self@.b == start.b + br.take(ch as int),
                self@.c == start.c + cr.take(ch as int),
                self@.d == start.d,
                self@.e == start.e,
                self.tp@ == old(self).tp@,
        {
            let plane = Self::plane_row_exec(n, m, ins, s1, ch);
            let kernels = Self::kernel_row_exec(n, m, ins, outs, s2, ch);
            self.a.append_with_idx(&plane);
            self.b.append_with_idx(&kernels);
            self.c.append(&Self::one_cell(aux + ch));
            proof {
                assert(factors + fm.take(ch + 1) =~= (factors + fm.take(ch as int)).push(true));
                assert(results + rm.take(ch + 1) =~= (results + rm.take(ch as int)).push(false));
                assert(start.a + ar.take(ch + 1) =~= (start.a + ar.take(ch as int)).push(
                    ar[ch as int],
                ));
                assert(start.b + br.take(ch + 1) =~= (start.b + br.take(ch as int)).push(
                    br[ch as int],
                ));
                assert(start.c + cr.take(ch + 1) =~= (start.c + cr.take(ch as int)).push(
                    cr[ch as int],
                ));
            }
        }
        self.a.append(&Self::cells_exec(aux, ins));
        self.b.append(&Self::one_cell(0));
        let side: usize = n + m - 1;
        proof {
            assert(0 <= outs * side && 0 <= outs * side * side) by (nonlinear_arith)
                requires
                    outs >= 0,
                    side >= 0,
            ;
        }
        let cells_out = Self::graded_exec(out, outs * side * side);
        self.c.append_with_idx(&cells_out);
        proof {
            assert(factors + fm =~= (factors + fm.take(ins as int)).push(false));
            assert(results + rm =~= (results + rm.take(ins as int)).push(true));
            assert(start.a + ar =~= (start.a + ar.take(ins as int)).push(ar[ins as int]));
            assert(start.b + br =~= (start.b + br.take(ins as int)).push(br[ins as int]));
            assert(start.c + cr =~= (start.c + cr.take(ins as int)).push(cr[ins as int]));
        }
    }

    /// Appends the rows of an instruction.
    fn emit(
        &mut self,
        instr: &Instruction,
        out: usize,
        aux: usize,
        Ghost(factors): Ghost<Seq<bool>>,
        Ghost(results): Ghost<Seq<bool>>,
    )
        requires
            old(self).marked(factors, results),
            operands_fit(*instr),
            out + instr.outputs() <= usize::MAX,
            aux + advice_len(*instr) <= usize::MAX,
            *instr matches Instruction::Div { input1, input2, divisor } ==> divisor > 0,
            *instr matches Instruction::Lookup { input, tp } ==> tp.tag_fits(),
            old(self).tags_fit(),
        ensures
            final(self)@ == (Rows {
                a: old(self)@.a + a_rows(*instr, out as int, aux as int),
                b: old(self)@.b + b_rows(*instr, out as int, aux as int),
                c: old(self)@.c + c_rows(*instr, out as int, aux as int),
                d: old(self)@.d + d_rows(*instr, out as int, aux as int),
                e: old(self)@.e + e_rows(*instr, out as int, aux as int),
                tp: old(self)@.tp + lookup_tags(*instr),
            }),
            final(self).tags_fit(),
            final(self).marked(factors + factor_marks(*instr), results + result_marks(*instr)),
    {
        let ghost fm = factor_marks(*instr);
        let ghost rm = result_marks(*instr);
        let ghost start = self@;
        let ghost ar = a_rows(*instr, out as int, aux as int);
        let ghost br = b_rows(*instr, out as int, aux as int);
        let ghost cr = c_rows(*instr, out as int, aux as int);
        let ghost dr = d_rows(*instr, out as int, aux as int);
        let ghost er = e_rows(*instr, out as int, aux as int);
        let ghost tr = lookup_tags(*instr);
        match instr {
            Instruction::AddMult { input1, input2 } => {
                self.a.append(input1);
                self.b.append(input2);
                self.c.append(&Self::one_cell(out));
            },
            Instruction::Conv { n, m, in_channels, out_channels, start1, start2 } => {
                self.emit_conv(
                    *n,
                    *m,
                    *in_channels,
                    *out_channels,
                    *start1,
                    *start2,
                    out,
                    aux,
                    Ghost(factors),
                    Ghost(results),
                );
            },
            Instruction::Lookup { input, tp } => {
                self.d.append(input);
                self.e.append(&Self::one_cell(out));
                self.tp.push(*tp);
            },
            Instruction::Div { input1, input2, divisor } => {
                self.a.append(input1);
                self.b.append(input2);
                let mut row: Vec<(usize, i64)> = Vec::new();
                row.push((out, *divisor));
                row.push((aux, 1));
                self.c.append(&row);
                let nothing: Vec<(usize, i64)> = Vec::new();
                assert(plain_row(row@) =~= seq![
                    Entry { col: out as int, val: *divisor as int, pow: 0 },
                    cell(aux as int),
                ]);
                assert(plain_row(nothing@) =~= Seq::<Entry>::empty());
                self.d.append(&nothing);
                self.e.append(&Self::one_cell(aux));
                self.tp.push(LookupType::Range(*divisor));
                self.d.append(&nothing);
                self.e.append(&Self::one_cell(out));
                self.tp.push(LookupType::Bound(QUOTIENT_BOUND));
            },
            Instruction::MatMult { m, n, k, start1, start2 } => {
                self.emit_matmult(
                    *m,
                    *n,
                    *k,
                    *start1,
                    *start2,
                    out,
                    aux,
                    Ghost(factors),
                    Ghost(results),
                );
            },
        }
        proof {
            if instr is AddMult || instr is Div {
                assert(factors + fm =~= factors.push(false));
                assert(results + rm =~= results.push(false));
            } else if instr is Lookup {
                assert(factors + fm =~= factors);
                assert(results + rm =~= results);
            }
            let (x, y) = (start.d.len(), start.e.len());
            assert(unmarked(x).push(false) =~= unmarked(x + 1));
            assert(unmarked(x + 1).push(false) =~= unmarked(x + 2));
            assert(unmarked(y).push(false) =~= unmarked(y + 1));
            assert(unmarked(y + 1).push(false) =~= unmarked(y + 2));
            assert(self@.a =~= start.a + ar);
            assert(self@.b =~= start.b + br);
            assert(self@.c =~= start.c + cr);
            assert(self@.d =~= start.d + dr);
            assert(self@.e =~= start.e + er);
            assert(self@.tp =~= start.tp + tr);
        }
    }
}

/// Each element of a row carries a power.
pub open spec fn all_powered(row: Seq<(usize, i64, Option<usize>)>) -> bool {
    forall|k: int| 0 <= k < row.len() ==> (#[trigger] row[k]).2 is Some
}

/// The view of an element of a row with powers.
spec fn powered_entry(e: (usize, i64, Option<usize>)) -> Entry {
    Entry {
        col: e.0 as int,
        val: e.1 as int,
        pow: match e.2 {
            Some(p) => p as int,
            None => 0,
        },
    }
}

/// A program without errors has none from any instruction on.
pub proof fn lemma_no_error(
    instrs: Seq<Instruction>,
    k: int,
    start: int,
    aux_start: int,
    weight_len: int,
    table: Seq<(int, int, int)>,
)
    requires
        0 <= k <= instrs.len(),
        program_error(instrs, 0, start, aux_start, weight_len, table) is None,
    ensures
        program_error(instrs, k, start, aux_start, weight_len, table) is None,
        k < instrs.len() ==> instr_error(
            k as usize,
            instrs[k],
            out_at(instrs, start, k),
            aux_start,
            weight_len,
            table,
        ) is None,
    decreases k,
{
    if k > 0 {
        lemma_no_error(instrs, k - 1, start, aux_start, weight_len, table);
    }
}

impl Program {
    /// The circuit that the program compiles to, with `input_len` input cells, the
    /// advice from cell `aux_start` on and the given lookup table; or what is
    /// wrong with the program.
    pub fn compile(
        &self,
        input_len: usize,
        aux_start: usize,
        table: Vec<(Fr, Fr, Fr)>,
    ) -> (r: Result<Circuit, CompileError>)
        requires
            program_fits(self.code(), self.params().len() + input_len, aux_start as int),
        ensures
            match r {
                Ok(c) => {
                    &&& validity_error(
                        self.code(),
                        self.params().len() as int,
                        input_len as int,
                        aux_start as int,
                        table_rows(table@),
                    ) is None
                    &&& c@ == circuit_of(
                        self.code(),
                        self.params(),
                        input_len as int,
                        aux_start as int,
                        table_rows(table@),
                    )
                    &&& circuit_marked(c, self.code())
                },
                Err(e) => validity_error(
                    self.code(),
                    self.params().len() as int,
                    input_len as int,
                    aux_start as int,
                    table_rows(table@),
                ) == Some(e),
            },
    {
        let ghost code = self.code();
        let ghost tv = table_rows(table@);
        let instrs = self.instructions();
        let q: usize = instrs.len();
        let weight_len: usize = self.weight_len();
        let start: usize = weight_len + input_len;
        let mut out: usize = start;
        for k in 0..q
            invariant
                q == code.len(),
                instrs@ == code,
                code == self.code(),
                weight_len == self.params().len(),
                start == weight_len + input_len,
                tv == table_rows(table@),
                program_fits(code, start as int, aux_start as int),
                out == out_at(code, start as int, k as int),
                program_error(
                    code,
                    0,
                    start as int,
                    aux_start as int,
                    weight_len as int,
                    tv,
                ) == program_error(
                    code,
                    k as int,
                    start as int,
                    aux_start as int,
                    weight_len as int,
                    tv,
                ),
        {
            assert(operands_fit(code[k as int]));
            assert(out_at(code, start as int, k + 1) <= usize::MAX);
            match instr_error_exec(k, &instrs[k], out, aux_start, weight_len, &table) {
                Some(e) => {
                    return Err(e);
                },
                None => {},
            }
            out = out + instrs[k].output_len();
        }
        if out != aux_start {
            return Err(CompileError::TraceLengthMismatch { expected: aux_start, found: out });
        }
        let mut builder = Builder {
            a: SparseMatrix::new(),
            b: SparseMatrix::new(),
            c: SparseMatrix::new(),
            d: SparseMatrix::new(),
            e: SparseMatrix::new(),
            tp: Vec::new(),
        };
        let mut out: usize = start;
        let mut aux: usize = aux_start;
        assert(builder@.tp =~= Seq::<int>::empty());
        assert(unmarked(0) =~= Seq::<bool>::empty());
        for k in 0..q
            invariant
                q == code.len(),
                instrs@ == code,
                program_fits(code, start as int, aux_start as int),
                program_error(
                    code,
                    0,
                    start as int,
                    aux_start as int,
                    weight_len as int,
                    tv,
                ) is None,
                out == out_at(code, start as int, k as int),
                aux == aux_at(code, aux_start as int, k as int),
                builder@ == rows_of(code, k as int, start as int, aux_start as int),
                builder.marked(marks_of(code, k as int).0, marks_of(code, k as int).1),
                builder.tags_fit(),
        {
            proof {
                assert(operands_fit(code[k as int]));
                assert(out_at(code, start as int, k + 1) <= usize::MAX);
                assert(aux_at(code, aux_start as int, k + 1) <= usize::MAX);
                lemma_no_error(
                    code,
                    k as int,
                    start as int,
                    aux_start as int,
                    weight_len as int,
                    tv,
                );
            }
            let ghost marks = marks_of(code, k as int);
            builder.emit(&instrs[k], out, aux, Ghost(marks.0), Ghost(marks.1));
            out = out + instrs[k].output_len();
            aux = aux + advice_len_exec(&instrs[k]);
        }
        let weights = self.weights();
        let Builder { a, b, c, d, e, tp } = builder;
        Ok(Circuit::new(a, b, c, d, e, tp, weights, weight_len, aux, table))
    }

    /// The circuit that a program without errors compiles to.
    pub fn to_circuit(
        &self,
        input_size: usize,
        aux_start: usize,
        table: Vec<(Fr, Fr, Fr)>,
    ) -> (r: Circuit)
        requires
            program_fits(self.code(), self.params().len() + input_size, aux_start as int),
            validity_error(
                self.code(),
                self.params().len() as int,
                input_size as int,
                aux_start as int,
                table_rows(table@),
            ) is None,
        ensures
            r@ == circuit_of(
                self.code(),
                self.params(),
                input_size as int,
                aux_start as int,
                table_rows(table@),
            ),
            circuit_marked(r, self.code()),
    {
        match self.compile(input_size, aux_start, table) {
            Ok(c) => c,
            Err(_) => vstd::pervasive::unreached(),
        }
    }
}

} // verus!
