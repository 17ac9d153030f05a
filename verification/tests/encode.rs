//! Encodings of programs, and the rules of their compilation.
use pr1cs::circuit::{Circuit, LookupType, SparseRow, QUOTIENT_BOUND};
use pr1cs::compiler::CompileError;
use pr1cs::field::Fr;
use pr1cs::instruction::Instruction;
use pr1cs::program::Program;
use pr1cs::registration::family::families;
use pr1cs::registration::{check_compilation, Opcode, ProgramEncoding};

const DIVISOR: i64 = 64;

fn table() -> Vec<(Fr, Fr, Fr)> {
    let range = Fr::from_i64(LookupType::Range(DIVISOR).tag());
    let bound = Fr::from_i64(LookupType::Bound(QUOTIENT_BOUND).tag());
    let mut rows: Vec<(Fr, Fr, Fr)> =
        (0i64..DIVISOR).map(|i| (Fr::zero(), Fr::from_i64(i), range)).collect();
    rows.extend(
        (-64i64..=64).map(|i| (Fr::from_i64(i), Fr::from_i64(i.max(0)), Fr::from_i64(2))),
    );
    rows.extend((-64i64..=64).map(|i| (Fr::zero(), Fr::from_i64(i), bound)));
    rows
}

/// A matrix product, a division, and a lookup.
fn matmult_program() -> (Program, usize, usize) {
    let weights = vec![1, 1, 0, 0, 1];
    let input = vec![1, 2];
    let instructions = vec![
        Instruction::MatMult { m: 1, n: 2, k: 2, start1: weights.len(), start2: 1 },
        Instruction::Div {
            input1: vec![(weights.len() + input.len(), 1)],
            input2: vec![(0, 1)],
            divisor: DIVISOR,
        },
        Instruction::Lookup {
            input: vec![(weights.len() + input.len() + 2, 1)],
            tp: LookupType::Relu,
        },
    ];
    let input_len = input.len();
    let program = Program::new(instructions, weights);
    let aux_start = program.execute(&input).len();
    (program, input_len, aux_start)
}

/// A convolution, a product of two of its outputs, and a lookup.
fn conv_program() -> (Program, usize, usize) {
    let raw_weights = vec![1, 2, 3, 4, 5, 6, 7, 8, 1, -1, 2, -2, 3, -3, 4, -4];
    let input = vec![1, 2, 3, 4, -1, 0, 2, 1];
    let mut weights = vec![1];
    weights.extend(raw_weights.iter().copied());
    let conv_out = weights.len() + input.len();
    let instructions = vec![
        Instruction::Conv {
            n: 2,
            m: 2,
            in_channels: 2,
            out_channels: 2,
            start1: weights.len(),
            start2: 1,
        },
        Instruction::AddMult {
            input1: vec![(conv_out, 1)],
            input2: vec![(conv_out + 1, 1)],
        },
        Instruction::Lookup { input: vec![(conv_out, 1)], tp: LookupType::Relu },
    ];
    let input_len = input.len();
    let program = Program::new(instructions, weights);
    let aux_start = program.execute(&input).len();
    (program, input_len, aux_start)
}

#[test]
fn encoding_matches_compiled_circuit() {
    for (program, input_len, aux_start) in [matmult_program(), conv_program()] {
        let circuit = program.compile(input_len, aux_start, table()).ok().unwrap();
        let enc = ProgramEncoding::from_program(&program, input_len, aux_start);
        assert_eq!(enc.len(), program.instructions().len());
        assert_eq!(enc.cons_line, circuit.a.len());
        assert_eq!(enc.lu_line, circuit.d.len());
        assert_eq!(enc.z_len, circuit.z_len);
        check_compilation(&enc, &circuit).unwrap();
    }
}

#[test]
fn rejects_read_of_future_trace() {
    let (_, input_len, aux_start) = matmult_program();
    let weights = vec![1, 1, 0, 0, 1];
    let program = Program::new(
        vec![Instruction::Lookup {
            input: vec![(weights.len() + input_len, 1)],
            tp: LookupType::Relu,
        }],
        weights,
    );
    let err = program.compile(input_len, aux_start, table()).err().unwrap();
    assert!(matches!(err, CompileError::ReadsFutureTrace { .. }));
}

#[test]
fn rejects_read_of_advice_region() {
    let (program, input_len, aux_start) = matmult_program();
    let err = program.compile(input_len, aux_start - 3, table()).err().unwrap();
    assert!(matches!(err, CompileError::ReadsAdvice { .. }));
}

#[test]
fn rejects_trace_length_mismatch() {
    let (program, input_len, aux_start) = matmult_program();
    let err = program.compile(input_len, aux_start + 1, table()).err().unwrap();
    assert!(matches!(err, CompileError::TraceLengthMismatch { .. }));
}

#[test]
fn rejects_non_positive_divisor() {
    let weights = vec![1i64];
    let program = Program::new(
        vec![Instruction::Div {
            input1: vec![(1, 1)],
            input2: vec![(0, 1)],
            divisor: 0,
        }],
        weights,
    );
    let err = program.compile(1, 3, table()).err().unwrap();
    assert!(matches!(err, CompileError::NonPositiveDivisor { .. }));
}

#[test]
fn rejects_range_check_used_as_standalone_lookup() {
    let weights = vec![1i64];
    let program = Program::new(
        vec![Instruction::Lookup {
            input: vec![(1, 1)],
            tp: LookupType::Range(DIVISOR),
        }],
        weights,
    );
    let err = program.compile(1, 3, table()).err().unwrap();
    assert!(matches!(err, CompileError::ReservedLookupType { .. }));
}

#[test]
fn rejects_lookup_type_absent_from_table() {
    let (program, input_len, aux_start) = matmult_program();
    let rows = table()
        .into_iter()
        .filter(|&(_, _, tag)| tag != Fr::from_i64(LookupType::Relu.tag()))
        .collect::<Vec<_>>();
    let err = program.compile(input_len, aux_start, rows).err().unwrap();
    assert!(matches!(err, CompileError::MissingLookupRows { .. }));
}

#[test]
fn rejects_table_that_is_not_a_function() {
    let (program, input_len, aux_start) = matmult_program();
    let mut rows = table();
    let relu = Fr::from_i64(LookupType::Relu.tag());
    rows.push((Fr::from_i64(1), Fr::from_i64(7), relu));
    let err = program.compile(input_len, aux_start, rows).err().unwrap();
    assert!(matches!(err, CompileError::AmbiguousTable { .. }));
}

#[test]
fn catches_relabelled_output_cell() {
    let (program, input_len, aux_start) = matmult_program();
    let mut circuit = program.compile(input_len, aux_start, table()).ok().unwrap();
    let enc = ProgramEncoding::from_program(&program, input_len, aux_start);
    circuit.c.rows[enc.cr[0] + 2].elems[0].0 += 1;
    let violation = check_compilation(&enc, &circuit).unwrap_err();
    assert_eq!(violation.rule, "MatMult output");
}

#[test]
fn catches_tampered_randomization_exponent() {
    let (program, input_len, aux_start) = matmult_program();
    let mut circuit = program.compile(input_len, aux_start, table()).ok().unwrap();
    let enc = ProgramEncoding::from_program(&program, input_len, aux_start);
    circuit.a.rows[enc.cr[0]].elems[0].2 = Some(3);
    let violation = check_compilation(&enc, &circuit).unwrap_err();
    assert_eq!(violation.rule, "MatMult X row");
}

#[test]
fn catches_read_outside_the_trace_prefix() {
    let (program, input_len, aux_start) = matmult_program();
    let mut circuit = program.compile(input_len, aux_start, table()).ok().unwrap();
    let enc = ProgramEncoding::from_program(&program, input_len, aux_start);
    circuit.a.rows[enc.cr[1]].elems.push((enc.out[2], Fr::from_u64(1), None));
    let violation = check_compilation(&enc, &circuit).unwrap_err();
    assert_eq!(violation.rule, "Div reads");
}

#[test]
fn catches_swapped_lookup_type() {
    let (program, input_len, aux_start) = matmult_program();
    let mut circuit = program.compile(input_len, aux_start, table()).ok().unwrap();
    let enc = ProgramEncoding::from_program(&program, input_len, aux_start);
    circuit.tp[enc.lr[1] + 1] = Fr::from_i64(LookupType::Relu.tag());
    let violation = check_compilation(&enc, &circuit).unwrap_err();
    assert_eq!(violation.rule, "Div quotient type");
}

#[test]
fn catches_dropped_freivalds_sum_row() {
    let (program, input_len, aux_start) = matmult_program();
    let mut circuit = program.compile(input_len, aux_start, table()).ok().unwrap();
    let enc = ProgramEncoding::from_program(&program, input_len, aux_start);
    circuit.a.rows[enc.cr[0] + 2].elems.pop();
    let violation = check_compilation(&enc, &circuit).unwrap_err();
    assert_eq!(violation.rule, "MatMult advice sum");
}

#[test]
fn family_sizes_match_the_compiler() {
    let fams = families();
    let mm = [2i64, 3, 4, 10, 20, 0];
    let sizes: Vec<usize> = fams
        .iter()
        .filter(|f| f.opcode == Opcode::MatMult)
        .map(|f| f.size(&mm))
        .collect();
    assert_eq!(sizes, vec![3 * 2, 3 * 4, 3, 3, 1, 2 * 4]);

    let conv = [2i64, 3, 4, 2, 10, 20];
    let sizes: Vec<usize> = fams
        .iter()
        .filter(|f| f.opcode == Opcode::Conv)
        .map(|f| f.size(&conv))
        .collect();
    assert_eq!(sizes, vec![2 * 4 * 4, 2 * 3 * 2 * 2, 2, 2, 1, 3 * 5 * 5]);
}

#[test]
fn violations_of_the_shape_are_told_in_words() {
    let (program, input_len, aux_start) = matmult_program();
    let circuit = program.compile(input_len, aux_start, table()).ok().unwrap();
    let enc = ProgramEncoding::from_program(&program, input_len, aux_start);
    let text = |enc: &ProgramEncoding, circuit: &Circuit| {
        check_compilation(enc, circuit).unwrap_err().text()
    };

    let mut c = circuit.clone();
    c.weight_len += 1;
    assert_eq!(text(&enc, &c), "weight length (circuit 6 vs program 5)");
    let mut c = circuit.clone();
    c.a.rows.pop();
    assert_eq!(text(&enc, &c), "constraint row count (a=3 b=4 c=4 expected 4)");
    let mut c = circuit.clone();
    c.tp.pop();
    assert_eq!(text(&enc, &c), "lookup row count (d=3 e=3 tp=2 expected 3)");
    let mut c = circuit.clone();
    c.z_len = 20;
    assert_eq!(text(&enc, &c), "witness length (circuit 20 vs program 14)");
}

#[test]
fn violations_of_the_counters_are_told_in_words() {
    let (program, input_len, aux_start) = matmult_program();
    let circuit = program.compile(input_len, aux_start, table()).ok().unwrap();
    let enc = ProgramEncoding::from_program(&program, input_len, aux_start);
    let told = |enc: &ProgramEncoding, circuit: &Circuit| {
        let v = check_compilation(enc, circuit).unwrap_err();
        (v.instr, v.rule, v.detail)
    };

    let mut e = enc.clone();
    e.out[1] = 12;
    assert_eq!(told(&e, &circuit), (Some(1), "output counter", "12 != 9".to_string()));
    let mut e = enc.clone();
    e.sel.pop();
    assert_eq!(told(&e, &circuit), (Some(0), "selector", "4 vectors".to_string()));
    let mut e = enc.clone();
    e.sel[3][0] = -50;
    assert_eq!(told(&e, &circuit), (Some(0), "selector one-hot", "sum -50".to_string()));
    let mut e = enc.clone();
    e.aux_start += 1;
    for x in e.aux.iter_mut() {
        *x += 1;
    }
    assert_eq!(
        told(&e, &circuit),
        (None, "trace end", "trace ends at 11, advice starts at 12".to_string())
    );
    let mut e = enc.clone();
    e.z_len = 15;
    let mut c = circuit.clone();
    c.z_len = 15;
    assert_eq!(told(&e, &c), (None, "counter totals", "aux 14 cr 4 lr 3".to_string()));
}

#[test]
fn violations_of_the_rows_are_told_in_words() {
    let (program, input_len, aux_start) = matmult_program();
    let circuit = program.compile(input_len, aux_start, table()).ok().unwrap();
    let enc = ProgramEncoding::from_program(&program, input_len, aux_start);
    let text = |enc: &ProgramEncoding, circuit: &Circuit| {
        check_compilation(enc, circuit).unwrap_err().text()
    };

    let mut c = circuit.clone();
    c.c.rows[2].elems.pop();
    assert_eq!(
        text(&enc, &c),
        "instruction 0: MatMult output (expected 2 entries, found 1)"
    );
    let mut c = circuit.clone();
    c.a.rows[3].elems.push((10, Fr::one(), None));
    assert_eq!(
        text(&enc, &c),
        "instruction 1: Div reads (reads z[10] with only z[..9] available)"
    );
    let mut c = circuit.clone();
    c.tp[0] = Fr::one();
    assert_eq!(text(&enc, &c), "instruction 1: Div remainder type (row 0)");
    let mut c = circuit.clone();
    c.tp[1] = Fr::one();
    assert_eq!(text(&enc, &c), "instruction 1: Div quotient type (row 1)");
    let mut c = circuit.clone();
    c.tp[2] = Fr::one();
    assert_eq!(text(&enc, &c), "instruction 2: Lookup type (tag 2)");
    let mut e = enc.clone();
    e.opn[0][1] = -3;
    assert_eq!(text(&e, &circuit), "instruction 1: Div divisor (-3)");
}

#[test]
fn violations_of_the_operands_are_told_in_words() {
    let product = |m: usize, start1: usize| {
        let instr = Instruction::MatMult { m, n: 1, k: 1, start1, start2: 0 };
        Program::new(vec![instr], vec![1])
    };
    let conv = |out_channels: usize, start1: usize| {
        let instr =
            Instruction::Conv { n: 1, m: 1, in_channels: 1, out_channels, start1, start2: 0 };
        Program::new(vec![instr], vec![1])
    };
    let circuit = product(1, 1).compile(1, 3, table()).ok().unwrap();
    let mut narrow = circuit.clone();
    narrow.z_len = 3;
    let text = |program: &Program, aux_start: usize, circuit: &Circuit| {
        let enc = ProgramEncoding::from_program(program, 1, aux_start);
        check_compilation(&enc, circuit).unwrap_err().text()
    };
    assert_eq!(
        text(&product(0, 1), 2, &narrow),
        "instruction 0: MatMult dimensions (0x1x1)"
    );
    assert_eq!(
        text(&product(1, 9), 3, &circuit),
        "instruction 0: MatMult operand range (s1=9 s2=0 out=2)"
    );
    assert_eq!(
        text(&conv(0, 1), 2, &narrow),
        "instruction 0: Conv dimensions (C=1 D=0 n=1 m=1)"
    );
    assert_eq!(
        text(&conv(1, 9), 3, &circuit),
        "instruction 0: Conv operand range (s1=9 s2=0 out=2)"
    );
}

#[test]
fn only_randomized_rows_carry_powers() {
    let (program, input_len, aux_start) = matmult_program();
    let circuit = program.compile(input_len, aux_start, table()).ok().unwrap();
    let powers = |row: &SparseRow| row.elems.iter().map(|e| e.2).collect::<Vec<_>>();
    assert_eq!(powers(&circuit.a.rows[0]), vec![Some(0)]);
    assert_eq!(powers(&circuit.b.rows[1]), vec![Some(0), Some(1)]);
    assert_eq!(powers(&circuit.c.rows[1]), vec![None]);
    assert_eq!(powers(&circuit.a.rows[2]), vec![None, None]);
    assert_eq!(powers(&circuit.b.rows[2]), vec![None]);
    assert_eq!(powers(&circuit.c.rows[2]), vec![Some(0), Some(1)]);
    assert_eq!(powers(&circuit.c.rows[3]), vec![None, None]);
    assert!(circuit.d.rows.iter().chain(circuit.e.rows.iter()).all(|row| {
        row.elems.iter().all(|e| e.2.is_none())
    }));
}

#[test]
fn compile_errors_are_told_in_words() {
    let (program, input_len, aux_start) = matmult_program();
    let err = program.compile(input_len, aux_start + 1, table()).err().unwrap();
    assert_eq!(err.text(), "the trace has 11 cells, not 12");
    let err = CompileError::ReadsFutureTrace { instr: 3, col: 12 };
    assert_eq!(err.text(), "instruction 3 reads cell 12 before it is written");
    let err = CompileError::ReadsAdvice { instr: 0, col: 20 };
    assert_eq!(err.text(), "instruction 0 reads advice cell 20");
    let err = CompileError::ReadsParameter { instr: 1, col: 2 };
    assert_eq!(err.text(), "instruction 1 reads parameter 2 outside matrix B");
    let err = CompileError::NonPositiveDivisor { instr: 10, divisor: -7 };
    assert_eq!(err.text(), "instruction 10 divides by -7");
    let err = CompileError::ReservedLookupType { instr: 1 };
    assert_eq!(err.text(), "instruction 1 looks up a type kept for divisions");
    let err = CompileError::MissingLookupRows { instr: 4 };
    assert_eq!(err.text(), "the table has no row for instruction 4");
    let err = CompileError::AmbiguousTable { instr: 5 };
    assert_eq!(err.text(), "the table has two outputs for an input of instruction 5");
    let err = CompileError::EmptyDimension { instr: 6 };
    assert_eq!(err.text(), "instruction 6 has a dimension of zero");
}
