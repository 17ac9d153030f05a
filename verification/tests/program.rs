//! Programs, their circuits, and proofs of their runs.
use ark_ff::{PrimeField, UniformRand};
use rand::rngs::StdRng;
use rand::SeedableRng;
use pr1cs::circuit::{LookupType, QUOTIENT_BOUND};
use pr1cs::compiler::CompileError;
use pr1cs::field::{Fr, Limbs};
use pr1cs::group::{G1, G2};
use pr1cs::instruction::Instruction;
use pr1cs::kzg::{Mkzg, MkzgProveParams, MkzgVerParams};
use pr1cs::preprocess::Preprocessor;
use pr1cs::program::{LookupTable, Program};
use pr1cs::prover::Prover;
use pr1cs::util::RandomOracle;
use pr1cs::verify::Verifier;

/// A field element drawn by a generator.
fn draw(rng: &mut StdRng) -> Fr {
    let x = ark_bn254::Fr::rand(rng).into_bigint().0;
    Fr::from_limbs(Limbs { l0: x[0], l1: x[1], l2: x[2], l3: x[3] }).unwrap()
}

fn draws(n: usize, rng: &mut StdRng) -> Vec<Fr> {
    (0..n).map(|_| draw(rng)).collect()
}

fn oracle(n: usize, rng: &mut StdRng) -> RandomOracle {
    RandomOracle::new(draws(n, rng), Vec::new())
}

fn srs(log: usize, rng: &mut StdRng) -> (MkzgProveParams, MkzgVerParams) {
    let g = G1::generator().times(draw(rng));
    let h = G2::generator().times(draw(rng));
    Mkzg::gen_srs(g, h, &draws(log, rng))
}

fn relu_table() -> Vec<(Fr, Fr, Fr)> {
    (-64i64..=64)
        .map(|i| (Fr::from_i64(i), Fr::from_i64(i.max(0)), Fr::from_i64(2)))
        .collect()
}

fn full_cross_correlation(
    input: &[i64],
    weights: &[i64],
    n: usize,
    m: usize,
    in_channels: usize,
    out_channels: usize,
) -> Vec<i64> {
    let side = n + m - 1;
    let input_plane = n * n;
    let kernel_plane = m * m;
    let mut out = vec![0; out_channels * side * side];

    for d in 0..out_channels {
        for alpha in 0..side {
            for beta in 0..side {
                let mut total = 0;
                for c in 0..in_channels {
                    for u in 0..m {
                        for v in 0..m {
                            let i = alpha as isize - (m as isize - 1) + u as isize;
                            let j = beta as isize - (m as isize - 1) + v as isize;
                            if i >= 0 && i < n as isize && j >= 0 && j < n as isize {
                                let x = input[c * input_plane + i as usize * n + j as usize];
                                let w = weights[(c * out_channels + d) * kernel_plane + u * m + v];
                                total += x * w;
                            }
                        }
                    }
                }
                out[d * side * side + alpha * side + beta] = total;
            }
        }
    }

    out
}

#[test]
fn div_instruction_matches_floor_division() {
    let weights = vec![1];
    let input = vec![-65, 65, 8191, 8192, 383, 384];
    let instructions = vec![
        Instruction::Div {
            input1: vec![(weights.len(), 1)],
            input2: vec![(0, 1)],
            divisor: 64,
        },
        Instruction::Div {
            input1: vec![(weights.len() + 2, 1)],
            input2: vec![(0, 1)],
            divisor: 4096,
        },
        Instruction::Div {
            input1: vec![(weights.len() + 4, 1)],
            input2: vec![(0, 1)],
            divisor: 192,
        },
    ];
    let program = Program::new(instructions, weights.clone());
    let trace = program.execute(&input);
    let out = weights.len() + input.len();
    assert!(trace[out] == Fr::from_i64((-65i64).div_euclid(64)));
    assert!(trace[out + 1] == Fr::from_i64(8191i64.div_euclid(4096)));
    assert!(trace[out + 2] == Fr::from_i64(383i64.div_euclid(192)));
}

#[test]
fn conv_instruction_matches_direct_evaluation() {
    let n = 2;
    let m = 2;
    let in_channels = 2;
    let out_channels = 2;

    let raw_weights = vec![1, 2, 3, 4, 5, 6, 7, 8, 1, -1, 2, -2, 3, -3, 4, -4];
    let input = vec![1, 2, 3, 4, -1, 0, 2, 1];

    let mut weights = vec![1];
    weights.extend(raw_weights.iter().copied());

    let instruction = Instruction::Conv {
        n,
        m,
        in_channels,
        out_channels,
        start1: weights.len(),
        start2: 1,
    };
    let program = Program::new(vec![instruction], weights.clone());

    let trace = program.execute(&input);
    let output_start = weights.len() + input.len();
    let expected = full_cross_correlation(&input, &raw_weights, n, m, in_channels, out_channels);
    assert_eq!(trace.len(), output_start + expected.len());
    for (k, &x) in expected.iter().enumerate() {
        assert!(trace[output_start + k] == Fr::from_i64(x));
    }

    let aux_start = trace.len();
    let gamma = Fr::from_u64(7);
    let z = program.gen_z(output_start, &trace, gamma);
    let circuit = program.to_circuit(input.len(), aux_start, vec![]);
    assert!(circuit.check(&z, gamma));
}

#[test]
fn conv_instruction_proves_and_verifies() {
    let n = 2;
    let m = 2;
    let in_channels = 2;
    let out_channels = 2;

    let raw_weights = vec![1, 2, 3, 4, 5, 6, 7, 8, 1, -1, 2, -2, 3, -3, 4, -4];
    let input = vec![1, 2, 3, 4, -1, 0, 2, 1];

    let mut weights = vec![1];
    weights.extend(raw_weights.iter().copied());

    let conv_output_start = weights.len() + input.len();
    let instructions = vec![
        Instruction::Conv {
            n,
            m,
            in_channels,
            out_channels,
            start1: weights.len(),
            start2: 1,
        },
        Instruction::Lookup { input: vec![(conv_output_start, 1)], tp: LookupType::Relu },
        Instruction::Lookup { input: vec![(conv_output_start + 1, 1)], tp: LookupType::Relu },
    ];
    let program = Program::new(instructions, weights);

    let trace = program.execute(&input);
    let aux_start = trace.len();
    let mut rng = StdRng::seed_from_u64(7);
    let gamma = draw(&mut rng);
    let z = program.gen_z(conv_output_start, &trace, gamma);

    let circuit = program.to_circuit(input.len(), aux_start, relu_table());
    assert!(circuit.check(&z, gamma));

    let (kzg_pp, kzg_vp) = srs(5, &mut rng);
    let (pk, vk) = Preprocessor::build(kzg_pp, kzg_vp, circuit);
    let prover = Prover::new(pk);
    let mut ro = oracle(1000, &mut rng);
    let proof = prover.prove(&z, gamma, &mut ro);
    let verifier = Verifier::new(vk);
    assert!(verifier.verify(proof, gamma, &mut ro));
}

#[test]
fn a_matrix_product_is_row_by_column() {
    let weights = vec![1, 1, 2, 3, 4];
    let input = vec![5, 6];
    let program = Program::new(
        vec![Instruction::MatMult { m: 1, n: 2, k: 2, start1: 5, start2: 1 }],
        weights,
    );
    let trace = program.execute_i64(&input);
    assert_eq!(trace[7..], [5 * 1 + 6 * 3, 5 * 2 + 6 * 4]);
}

#[test]
fn tables_answer_by_index() {
    let table = LookupTable::new(-1, vec![10, 20, 30]);
    assert_eq!(table.lookup(-1), 10);
    assert_eq!(table.lookup(1), 30);
    let program = Program::new_with_lookup_tables(
        vec![Instruction::Lookup { input: vec![(1, 1)], tp: LookupType::Gelu }],
        vec![1],
        vec![(LookupType::Gelu, table)],
    );
    assert_eq!(program.execute_i64(&vec![0]), vec![1, 0, 20]);
    assert_eq!(program.weight_len(), 1);
}

#[test]
fn outputs_have_the_lengths_of_their_instructions() {
    let conv = Instruction::Conv {
        n: 4,
        m: 3,
        in_channels: 2,
        out_channels: 5,
        start1: 0,
        start2: 0,
    };
    assert_eq!(conv.output_len(), 5 * 6 * 6);
    let product = Instruction::MatMult { m: 2, n: 3, k: 4, start1: 0, start2: 0 };
    assert_eq!(product.output_len(), 8);
    let div = Instruction::Div { input1: vec![], input2: vec![], divisor: 2 };
    assert_eq!(div.output_len(), 1);
}

#[test]
fn tags_tell_the_types_apart() {
    assert_eq!(LookupType::Ge0.tag(), 1);
    assert_eq!(LookupType::Relu.tag(), 2);
    assert_eq!(LookupType::Range(64).tag(), -64);
    assert_eq!(LookupType::Bound(QUOTIENT_BOUND).tag(), 7 + QUOTIENT_BOUND);
}

#[test]
fn parameters_are_read_on_the_second_side_only() {
    let program = Program::new(
        vec![Instruction::AddMult { input1: vec![(1, 1)], input2: vec![(2, 1)] }],
        vec![1, 3],
    );
    let err = program.compile(1, 4, vec![]).err().unwrap();
    assert!(matches!(err, CompileError::ReadsParameter { instr: 0, .. }));
}

#[test]
fn empty_products_do_not_compile() {
    let program = Program::new(
        vec![Instruction::MatMult { m: 1, n: 0, k: 1, start1: 1, start2: 0 }],
        vec![1],
    );
    let err = program.compile(1, 3, vec![]).err().unwrap();
    assert_eq!(err, CompileError::EmptyDimension { instr: 0 });
}

#[test]
fn two_challenges_fix_a_product_of_two_cells() {
    let weights = vec![1, 1, 2, 3, 4];
    let input = vec![5, 6];
    let program = Program::new(
        vec![Instruction::MatMult { m: 1, n: 2, k: 2, start1: 5, start2: 1 }],
        weights,
    );
    let trace = program.execute(&input);
    let circuit = program.to_circuit(input.len(), trace.len(), vec![]);
    let (one, other) = (Fr::from_u64(7), Fr::from_u64(8));
    assert!(circuit.check(&program.gen_z(7, &trace, one), one));
    assert!(circuit.check(&program.gen_z(7, &trace, other), other));

    // The randomized sum at one challenge allows another product; the sum at two does not.
    let mut rival = trace;
    rival[7] = rival[7] + one;
    rival[8] = rival[8] - Fr::from_u64(1);
    assert!(circuit.check(&program.gen_z(7, &rival, one), one));
    assert!(!circuit.check(&program.gen_z(7, &rival, other), other));
}

#[test]
fn a_sum_of_products_leaves_no_choice() {
    let weights = vec![1, 3];
    let input = vec![5];
    let program = Program::new(
        vec![Instruction::AddMult { input1: vec![(2, 2)], input2: vec![(0, 4), (1, 1)] }],
        weights,
    );
    let mut z = program.execute(&input);
    let circuit = program.to_circuit(input.len(), z.len(), vec![]);
    let gamma = Fr::from_u64(7);
    assert!(z[3] == Fr::from_i64(70));
    assert!(circuit.check(&z, gamma));
    z[3] = Fr::from_i64(71);
    assert!(!circuit.check(&z, gamma));
}

#[test]
fn advice_cells_add_up_to_the_weighted_outputs() {
    let gamma = Fr::from_u64(7);
    let sums = |program: &Program, input: &Vec<i64>, output_start: usize| {
        let trace = program.execute(input);
        let z = program.gen_z(output_start, &trace, gamma);
        let advice = z[trace.len()..].iter().fold(Fr::zero(), |acc, &x| acc + x);
        let outputs =
            trace[output_start..].iter().rev().fold(Fr::zero(), |acc, &x| acc * gamma + x);
        (advice, outputs)
    };
    let product = Program::new(
        vec![Instruction::MatMult { m: 1, n: 2, k: 2, start1: 5, start2: 1 }],
        vec![1, 1, 2, 3, 4],
    );
    let (advice, outputs) = sums(&product, &vec![5, 6], 7);
    assert!(advice == Fr::from_i64(23 + 34 * 7));
    assert!(advice == outputs);

    let mut weights = vec![1];
    weights.extend([1, 2, 3, 4, 5, 6, 7, 8, 1, -1, 2, -2, 3, -3, 4, -4]);
    let conv = Program::new(
        vec![Instruction::Conv {
            n: 2,
            m: 2,
            in_channels: 2,
            out_channels: 2,
            start1: 17,
            start2: 1,
        }],
        weights,
    );
    let (advice, outputs) = sums(&conv, &vec![1, 2, 3, 4, -1, 0, 2, 1], 25);
    assert!(advice == outputs);
}

#[test]
fn a_product_over_nothing_reads_nothing() {
    let program = Program::new(
        vec![Instruction::MatMult { m: 1, n: 0, k: 2, start1: 100, start2: 200 }],
        vec![1],
    );
    assert_eq!(program.execute_i64(&vec![3]), vec![1, 3, 0, 0]);
}

#[test]
fn advice_over_nothing_reads_nothing() {
    let program = Program::new(
        vec![
            Instruction::MatMult { m: 0, n: 1, k: 1, start1: 100, start2: 0 },
            Instruction::Conv {
                n: 1,
                m: 1,
                in_channels: 0,
                out_channels: 1,
                start1: 100,
                start2: 200,
            },
        ],
        vec![4],
    );
    let trace = program.execute(&vec![3]);
    assert_eq!(trace.len(), 3);
    assert!(trace[2] == Fr::zero());
    let z = program.gen_z(2, &trace, Fr::from_u64(7));
    assert_eq!(z.len(), 4);
    assert!(z[3] == Fr::zero());
}
