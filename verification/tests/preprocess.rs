//! Keys, proofs and their checks.
use ark_ff::{PrimeField, UniformRand};
use rand::rngs::StdRng;
use rand::SeedableRng;
use pr1cs::circuit::{Circuit, LookupType, SparseMatrix};
use pr1cs::field::{Fr, Limbs};
use pr1cs::group::{G1, G2};
use pr1cs::instruction::Instruction;
use pr1cs::kzg::{Mkzg, MkzgProveParams, MkzgVerParams};
use pr1cs::poly::MlPoly;
use pr1cs::preprocess::Preprocessor;
use pr1cs::program::Program;
use pr1cs::prover::Prover;
use pr1cs::sparse::{sparse_commit, sparse_open, sparse_verify};
use pr1cs::util::{Proof, RandomOracle};
use pr1cs::verify::Verifier;

/// A field element drawn by a generator.
fn draw(rng: &mut StdRng) -> Fr {
    let x = ark_bn254::Fr::rand(rng).into_bigint().0;
    Fr::from_limbs(Limbs { l0: x[0], l1: x[1], l2: x[2], l3: x[3] }).unwrap()
}

fn draws(n: usize, rng: &mut StdRng) -> Vec<Fr> {
    (0..n).map(|_| draw(rng)).collect()
}

fn oracle(n: usize, rng: &mut StdRng) -> RandomOracle {
    RandomOracle::new(draws(n, rng), Vec::new())
}

fn srs(log: usize, rng: &mut StdRng) -> (MkzgProveParams, MkzgVerParams) {
    let g = G1::generator().times(draw(rng));
    let h = G2::generator().times(draw(rng));
    Mkzg::gen_srs(g, h, &draws(log, rng))
}

fn relu_table() -> Vec<(Fr, Fr, Fr)> {
    (-64i64..=64)
        .map(|i| (Fr::from_i64(i), Fr::from_i64(i.max(0)), Fr::from_i64(2)))
        .collect()
}

fn sample_fixture() -> (Program, Vec<i64>, Circuit, usize) {
    let n = 2;
    let m = 2;
    let in_channels = 2;
    let out_channels = 2;

    let raw_weights = vec![1, 2, 3, 4, 5, 6, 7, 8, 1, -1, 2, -2, 3, -3, 4, -4];
    let input = vec![1, 2, 3, 4, -1, 0, 2, 1];

    let mut weights = vec![1];
    weights.extend(raw_weights.iter().copied());
    let conv_output_start = weights.len() + input.len();
    let instructions = vec![
        Instruction::Conv {
            n,
            m,
            in_channels,
            out_channels,
            start1: weights.len(),
            start2: 1,
        },
        Instruction::Lookup { input: vec![(conv_output_start, 1)], tp: LookupType::Relu },
        Instruction::Lookup { input: vec![(conv_output_start + 1, 1)], tp: LookupType::Relu },
    ];
    let program = Program::new(instructions, weights);
    let trace = program.execute(&input);
    let aux_start = trace.len();
    let circuit = program.to_circuit(input.len(), aux_start, relu_table());
    (program, input, circuit, conv_output_start)
}

fn dnn_like_fixture() -> Circuit {
    let weights = vec![1, 1, 0, 0, 1];
    let input = vec![1, 2];
    let instructions = vec![
        Instruction::MatMult { m: 1, n: 2, k: 2, start1: weights.len(), start2: 1 },
        Instruction::AddMult {
            input1: vec![(weights.len() + input.len(), 1)],
            input2: vec![(0, 1)],
        },
        Instruction::Lookup {
            input: vec![(weights.len() + input.len() + 2, 1)],
            tp: LookupType::Relu,
        },
    ];
    let program = Program::new(instructions, weights);
    let trace = program.execute(&input);
    program.to_circuit(input.len(), trace.len(), relu_table())
}

fn log_len(len: usize) -> usize {
    (len.saturating_sub(1).ilog2() as usize) + 1
}

fn split_nonzeros(mat: &SparseMatrix, weight_len: usize) -> (usize, usize) {
    let mut pre = 0;
    let mut suf = 0;
    for row in &mat.rows {
        for &(col, _, _) in &row.elems {
            if col < weight_len {
                pre += 1;
            } else {
                suf += 1;
            }
        }
    }
    (pre, suf)
}

fn assert_only_b_has_prefix_nonzeros(circuit: &Circuit) {
    let (a_pre, _) = split_nonzeros(&circuit.a, circuit.weight_len);
    let (b_pre, _) = split_nonzeros(&circuit.b, circuit.weight_len);
    let (c_pre, _) = split_nonzeros(&circuit.c, circuit.weight_len);
    let (d_pre, _) = split_nonzeros(&circuit.d, circuit.weight_len);
    let (e_pre, _) = split_nonzeros(&circuit.e, circuit.weight_len);
    assert_eq!(a_pre, 0);
    assert!(b_pre > 0);
    assert_eq!(c_pre, 0);
    assert_eq!(d_pre, 0);
    assert_eq!(e_pre, 0);
}

#[test]
fn dense_public_polys_match_direct_evals() {
    let (_program, _input, circuit, _output_start) = sample_fixture();
    let mut rng = StdRng::seed_from_u64(11);
    let (kzg_pp, kzg_vp) = srs(5, &mut rng);
    let (pk, _vk) = Preprocessor::build(kzg_pp, kzg_vp, circuit.clone());

    let weight_point = draws(log_len(circuit.weights.len()), &mut rng);
    let tp_point = draws(log_len(circuit.tp.len()), &mut rng);
    let table_point = draws(log_len(circuit.table.len()), &mut rng);
    let dense = &pk.dense_public_polys;

    assert!(
        dense.weights.clone().eval(&weight_point)
            == MlPoly::new(circuit.weights.clone()).eval(&weight_point)
    );
    assert!(dense.tp.clone().eval(&tp_point) == MlPoly::new(circuit.tp.clone()).eval(&tp_point));
    assert!(
        dense.table_i.clone().eval(&table_point)
            == MlPoly::new(circuit.table.iter().map(|&(i, _, _)| i).collect()).eval(&table_point)
    );
    assert!(
        dense.table_j.clone().eval(&table_point)
            == MlPoly::new(circuit.table.iter().map(|&(_, j, _)| j).collect()).eval(&table_point)
    );
    assert!(
        dense.table_k.clone().eval(&table_point)
            == MlPoly::new(circuit.table.iter().map(|&(_, _, k)| k).collect()).eval(&table_point)
    );
}

#[test]
fn sparse_open_matches_existing_matrix_mles() {
    let (program, input, circuit, output_start) = sample_fixture();
    let mut rng = StdRng::seed_from_u64(17);
    let gamma = draw(&mut rng);
    let trace = program.execute(&input);
    let z = program.gen_z(output_start, &trace, gamma);
    let point1 = draws(log_len(circuit.a.len()), &mut rng);
    let point_logup_left = draws(log_len(circuit.d.len()), &mut rng);
    let point_suf = draws(log_len(z.len() - circuit.weight_len), &mut rng);
    let point_pre = draws(log_len(circuit.weight_len), &mut rng);

    let (kzg_pp, kzg_vp) = srs(5, &mut rng);
    let (sparse_polys, sparse_commits) = sparse_commit(&kzg_pp, &circuit);
    let mut proof = Proof::new();
    let mut ro = oracle(1000, &mut rng);
    let evals = sparse_open(
        &kzg_pp,
        &circuit,
        &sparse_polys,
        &point1,
        &point_logup_left,
        &point_suf,
        &point_pre,
        gamma,
        &mut proof,
        &mut ro,
    );
    let row_eq_1 = MlPoly::new_eq(&point1).0;
    let row_eq_lu = MlPoly::new_eq(&point_logup_left).0;
    let col_eq_suf = MlPoly::new_eq(&point_suf).0;
    let col_eq_pre = MlPoly::new_eq(&point_pre).0;
    let wei_len = circuit.weight_len;
    let top = usize::MAX;

    assert!(evals.a_suf == circuit.a.mle(&row_eq_1, &col_eq_suf, wei_len, top, gamma));
    assert!(evals.b_suf == circuit.b.mle(&row_eq_1, &col_eq_suf, wei_len, top, gamma));
    assert!(evals.c_suf == circuit.c.mle(&row_eq_1, &col_eq_suf, wei_len, top, gamma));
    assert!(evals.d_suf == circuit.d.mle(&row_eq_lu, &col_eq_suf, wei_len, top, gamma));
    assert!(evals.e_suf == circuit.e.mle(&row_eq_lu, &col_eq_suf, wei_len, top, gamma));
    assert!(evals.a_pre == circuit.a.mle(&row_eq_1, &col_eq_pre, 0, wei_len, gamma));
    assert!(evals.b_pre == circuit.b.mle(&row_eq_1, &col_eq_pre, 0, wei_len, gamma));
    assert!(evals.c_pre == circuit.c.mle(&row_eq_1, &col_eq_pre, 0, wei_len, gamma));
    assert!(evals.d_pre == circuit.d.mle(&row_eq_lu, &col_eq_pre, 0, wei_len, gamma));
    assert!(evals.e_pre == circuit.e.mle(&row_eq_lu, &col_eq_pre, 0, wei_len, gamma));
    assert!(evals.a_pre == Fr::from_u64(0));
    assert!(evals.c_pre == Fr::from_u64(0));
    assert!(evals.d_pre == Fr::from_u64(0));
    assert!(evals.e_pre == Fr::from_u64(0));

    ro.restart();
    let verified = sparse_verify(
        &kzg_vp,
        &sparse_commits,
        &point1,
        &point_logup_left,
        &point_suf,
        &point_pre,
        gamma,
        &mut proof,
        &mut ro,
    )
    .unwrap();
    assert!(verified.b_pre == evals.b_pre);
}

#[test]
fn sparse_commit_uses_single_suffix_batch_layout() {
    let (_program, _input, conv_circuit, _output_start) = sample_fixture();
    let dnn_circuit = dnn_like_fixture();
    let mut rng = StdRng::seed_from_u64(19);
    let (kzg_pp, _kzg_vp) = srs(5, &mut rng);

    for circuit in [&conv_circuit, &dnn_circuit] {
        assert_only_b_has_prefix_nonzeros(circuit);
        let (polys, commits) = sparse_commit(&kzg_pp, circuit);
        assert_eq!(polys.supergroups.len(), 1);
        assert_eq!(commits.supergroups.len(), 1);
        assert_eq!(polys.supergroups[0].matrix_lens.len(), 5);
        assert_eq!(commits.supergroups[0].matrix_lens, polys.supergroups[0].matrix_lens);
        assert_eq!(polys.b_pre.len, commits.b_pre.len);
        assert_eq!(polys.b_pre.log_col, commits.b_pre.log_col);
        assert_eq!(polys.b_pre.count_col.0.len(), 1 << polys.b_pre.log_col);
        assert!(polys.b_pre.count_col.0.len() >= circuit.weight_len);
    }
}

#[test]
fn sparse_verify_rejects_nonzero_unproved_prefix_claims() {
    let (_program, _input, mut circuit, _output_start) = sample_fixture();
    circuit.a.rows[0].elems.push((1, Fr::from_u64(1), None));

    let mut rng = StdRng::seed_from_u64(29);
    let gamma = Fr::from_u64(7);
    let point1 = vec![Fr::from_u64(0); log_len(circuit.a.len())];
    let point_logup_left = vec![Fr::from_u64(0); log_len(circuit.d.len())];
    let point_suf = vec![Fr::from_u64(0); log_len(circuit.z_len - circuit.weight_len)];
    let mut point_pre = vec![Fr::from_u64(0); log_len(circuit.weight_len)];
    point_pre[0] = Fr::from_u64(1);

    let (kzg_pp, kzg_vp) = srs(5, &mut rng);
    let (sparse_polys, sparse_commits) = sparse_commit(&kzg_pp, &circuit);
    let mut proof = Proof::new();
    let mut ro = oracle(1000, &mut rng);
    let evals = sparse_open(
        &kzg_pp,
        &circuit,
        &sparse_polys,
        &point1,
        &point_logup_left,
        &point_suf,
        &point_pre,
        gamma,
        &mut proof,
        &mut ro,
    );
    assert!(evals.a_pre == Fr::from_u64(1));

    ro.restart();
    let verified = sparse_verify(
        &kzg_vp,
        &sparse_commits,
        &point1,
        &point_logup_left,
        &point_suf,
        &point_pre,
        gamma,
        &mut proof,
        &mut ro,
    );
    assert!(verified.is_none());
}

#[test]
fn preprocessing_reuses_verifier_key_across_gammas() {
    let (program, input, circuit, output_start) = sample_fixture();
    let mut rng = StdRng::seed_from_u64(23);
    let (kzg_pp, kzg_vp) = srs(5, &mut rng);
    let (pk, vk) = Preprocessor::build(kzg_pp, kzg_vp, circuit.clone());
    let prover = Prover::new(pk.clone());
    let verifier = Verifier::new(vk.clone());

    for gamma in [draw(&mut rng), draw(&mut rng)] {
        let trace = program.execute(&input);
        let z = program.gen_z(output_start, &trace, gamma);
        let mut ro = oracle(1000, &mut rng);
        let proof = prover.prove(&z, gamma, &mut ro);
        assert!(verifier.verify(proof, gamma, &mut ro));
    }
}

#[test]
fn verify_with_non_power_of_two_lookup_count() {
    let mut weights = vec![1i64];
    weights.extend([1, -1, 2, -2, 3, -3, 4, -4]);
    let input = vec![1i64, 2, 3, 4, -1, 0, 2, 1];
    let conv_output_start = weights.len() + input.len();
    let instructions = vec![
        Instruction::Conv {
            n: 2,
            m: 2,
            in_channels: 2,
            out_channels: 1,
            start1: weights.len(),
            start2: 1,
        },
        Instruction::Lookup { input: vec![(conv_output_start, 1)], tp: LookupType::Relu },
        Instruction::Lookup { input: vec![(conv_output_start + 1, 1)], tp: LookupType::Relu },
        Instruction::Lookup { input: vec![(conv_output_start + 2, 1)], tp: LookupType::Relu },
    ];
    let program = Program::new(instructions, weights);
    let trace = program.execute(&input);
    let aux_start = trace.len();
    let circuit = program.to_circuit(input.len(), aux_start, relu_table());
    assert_eq!(circuit.d.len(), 3);

    let mut rng = StdRng::seed_from_u64(57);
    let gamma = draw(&mut rng);
    let z = program.gen_z(conv_output_start, &trace, gamma);
    let (kzg_pp, kzg_vp) = srs(5, &mut rng);
    let (pk, vk) = Preprocessor::build(kzg_pp, kzg_vp, circuit);
    let prover = Prover::new(pk);
    let mut ro = oracle(1000, &mut rng);
    let proof = prover.prove(&z, gamma, &mut ro);
    assert!(Verifier::new(vk).verify(proof, gamma, &mut ro));
}

#[test]
fn wrong_weights_commit_rejects() {
    let (program, input, circuit, output_start) = sample_fixture();
    let mut rng = StdRng::seed_from_u64(31);
    let gamma = draw(&mut rng);
    let trace = program.execute(&input);
    let z = program.gen_z(output_start, &trace, gamma);
    let (kzg_pp, kzg_vp) = srs(5, &mut rng);
    let (pk, vk) = Preprocessor::build(kzg_pp, kzg_vp, circuit);
    let prover = Prover::new(pk);
    let mut ro = oracle(1000, &mut rng);
    let proof = prover.prove(&z, gamma, &mut ro);

    let mut bad_vk = vk.clone();
    bad_vk.weights_commit = bad_vk.tp_commit.clone();
    assert!(!Verifier::new(bad_vk).verify(proof, gamma, &mut ro));
}

#[test]
fn wrong_tp_commit_rejects() {
    let (program, input, circuit, output_start) = sample_fixture();
    let mut rng = StdRng::seed_from_u64(37);
    let gamma = draw(&mut rng);
    let trace = program.execute(&input);
    let z = program.gen_z(output_start, &trace, gamma);
    let (kzg_pp, kzg_vp) = srs(5, &mut rng);
    let (pk, vk) = Preprocessor::build(kzg_pp, kzg_vp, circuit);
    let prover = Prover::new(pk);
    let mut ro = oracle(1000, &mut rng);
    let proof = prover.prove(&z, gamma, &mut ro);

    let mut bad_vk = vk.clone();
    bad_vk.tp_commit = bad_vk.weights_commit.clone();
    assert!(!Verifier::new(bad_vk).verify(proof, gamma, &mut ro));
}

#[test]
fn wrong_table_commit_rejects() {
    let (program, input, circuit, output_start) = sample_fixture();
    let mut rng = StdRng::seed_from_u64(41);
    let gamma = draw(&mut rng);
    let trace = program.execute(&input);
    let z = program.gen_z(output_start, &trace, gamma);
    let (kzg_pp, kzg_vp) = srs(5, &mut rng);
    let (pk, vk) = Preprocessor::build(kzg_pp, kzg_vp, circuit);
    let prover = Prover::new(pk);
    let mut ro = oracle(1000, &mut rng);
    let proof = prover.prove(&z, gamma, &mut ro);

    let mut bad_vk = vk.clone();
    bad_vk.table_i_commit = bad_vk.table_j_commit.clone();
    assert!(!Verifier::new(bad_vk).verify(proof, gamma, &mut ro));
}

#[test]
fn wrong_b_pre_commit_rejects() {
    let (program, input, circuit, output_start) = sample_fixture();
    let mut rng = StdRng::seed_from_u64(43);
    let gamma = draw(&mut rng);
    let trace = program.execute(&input);
    let z = program.gen_z(output_start, &trace, gamma);
    let (kzg_pp, kzg_vp) = srs(5, &mut rng);
    let (pk, vk) = Preprocessor::build(kzg_pp, kzg_vp, circuit);
    let prover = Prover::new(pk);
    let mut ro = oracle(1000, &mut rng);
    let proof = prover.prove(&z, gamma, &mut ro);

    let mut bad_vk = vk.clone();
    let b_pre = &mut bad_vk.sparse_commits.b_pre;
    b_pre.val = b_pre.row.clone();
    assert!(!Verifier::new(bad_vk).verify(proof, gamma, &mut ro));
}

#[test]
fn a_vector_that_does_not_satisfy_the_circuit_is_refused() {
    let (program, input, circuit, output_start) = sample_fixture();
    let mut rng = StdRng::seed_from_u64(47);
    let gamma = draw(&mut rng);
    let trace = program.execute(&input);
    let mut z = program.gen_z(output_start, &trace, gamma);
    z[output_start] = z[output_start] + Fr::one();
    assert!(!circuit.check(&z, gamma));
    let (kzg_pp, kzg_vp) = srs(5, &mut rng);
    let (pk, vk) = Preprocessor::build(kzg_pp, kzg_vp, circuit);
    let mut ro = oracle(1000, &mut rng);
    let proof = Prover::new(pk).prove(&z, gamma, &mut ro);
    assert!(!Verifier::new(vk).verify(proof, gamma, &mut ro));
}

#[test]
fn a_lookup_that_is_not_in_the_table_is_refused() {
    let (program, input, circuit, output_start) = sample_fixture();
    let mut rng = StdRng::seed_from_u64(61);
    let gamma = draw(&mut rng);
    let trace = program.execute(&input);
    let mut z = program.gen_z(output_start, &trace, gamma);
    let last = trace.len() - 1;
    z[last] = z[last] + Fr::from_i64(1000);
    assert!(!circuit.check(&z, gamma));
    let (kzg_pp, kzg_vp) = srs(5, &mut rng);
    let (pk, vk) = Preprocessor::build(kzg_pp, kzg_vp, circuit);
    let mut ro = oracle(1000, &mut rng);
    let proof = Prover::new(pk).prove(&z, gamma, &mut ro);
    assert!(!Verifier::new(vk).verify(proof, gamma, &mut ro));
}

#[test]
fn an_empty_proof_is_refused() {
    let (_program, _input, circuit, _output_start) = sample_fixture();
    let mut rng = StdRng::seed_from_u64(53);
    let (kzg_pp, kzg_vp) = srs(5, &mut rng);
    let (_pk, vk) = Preprocessor::build(kzg_pp, kzg_vp, circuit);
    let mut ro = oracle(1000, &mut rng);
    assert!(!Verifier::new(vk).verify(Proof::new(), Fr::one(), &mut ro));
}

#[test]
fn a_repeated_row_that_is_not_looked_up_does_no_harm() {
    let (program, input, _, output_start) = sample_fixture();
    let mut rng = StdRng::seed_from_u64(71);
    let gamma = draw(&mut rng);
    let trace = program.execute(&input);
    let read = [trace[output_start], trace[output_start + 1]];
    let mut rows = relu_table();
    let spare = rows.iter().find(|row| row.0 != read[0] && row.0 != read[1]).copied().unwrap();
    rows.push(spare);
    let circuit = program.to_circuit(input.len(), trace.len(), rows);
    let z = program.gen_z(output_start, &trace, gamma);
    assert!(circuit.check(&z, gamma));
    let (kzg_pp, kzg_vp) = srs(5, &mut rng);
    let (pk, vk) = Preprocessor::build(kzg_pp, kzg_vp, circuit);
    let mut ro = oracle(1000, &mut rng);
    let proof = Prover::new(pk).prove(&z, gamma, &mut ro);
    assert!(Verifier::new(vk).verify(proof, gamma, &mut ro));
}
