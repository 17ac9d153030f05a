//! Certificates.
use ark_ff::{PrimeField, UniformRand};
use rand::rngs::StdRng;
use rand::SeedableRng;
use pr1cs::circuit::{Circuit, LookupType, QUOTIENT_BOUND};
use pr1cs::field::{Fr, Limbs};
use pr1cs::group::{G1, G2};
use pr1cs::instruction::Instruction;
use pr1cs::kzg::{Mkzg, MkzgProveParams, MkzgVerParams};
use pr1cs::poly::MlPoly;
use pr1cs::preprocess::{Preprocessor, ProvingKey, VerifierKey};
use pr1cs::program::Program;
use pr1cs::prover::Prover;
use pr1cs::registration::registrar::public_eval;
use pr1cs::registration::relation::Tab;
use pr1cs::registration::{
    ProgramEncoding, ProgramWitness, Registrar, RegistrationError, RegistrationKey,
    RegistrationProfile,
};
use pr1cs::util::{Proof, RandomOracle};
use pr1cs::verify::Verifier;

/// A field element drawn by a generator.
fn draw(rng: &mut StdRng) -> Fr {
    let x = ark_bn254::Fr::rand(rng).into_bigint().0;
    Fr::from_limbs(Limbs { l0: x[0], l1: x[1], l2: x[2], l3: x[3] }).unwrap()
}

fn draws(n: usize, rng: &mut StdRng) -> Vec<Fr> {
    (0..n).map(|_| draw(rng)).collect()
}

fn oracle(n: usize, rng: &mut StdRng) -> RandomOracle {
    RandomOracle::new(draws(n, rng), Vec::new())
}

fn srs(log: usize, rng: &mut StdRng) -> (MkzgProveParams, MkzgVerParams) {
    let g = G1::generator().times(draw(rng));
    let h = G2::generator().times(draw(rng));
    Mkzg::gen_srs(g, h, &draws(log, rng))
}

const DIVISOR: i64 = 64;

fn table() -> Vec<(Fr, Fr, Fr)> {
    let range = Fr::from_i64(LookupType::Range(DIVISOR).tag());
    let bound = Fr::from_i64(LookupType::Bound(QUOTIENT_BOUND).tag());
    let mut rows: Vec<(Fr, Fr, Fr)> =
        (0i64..DIVISOR).map(|i| (Fr::zero(), Fr::from_i64(i), range)).collect();
    rows.extend(
        (-64i64..=64).map(|i| (Fr::from_i64(i), Fr::from_i64(i.max(0)), Fr::from_i64(2))),
    );
    rows.extend((-64i64..=64).map(|i| (Fr::zero(), Fr::from_i64(i), bound)));
    rows
}

/// A product, a division, and a lookup.
fn fixture() -> (Program, ProgramEncoding, Circuit) {
    let weights = vec![1, 3];
    let input = vec![5];
    let instructions = vec![
        Instruction::AddMult { input1: vec![(2, 1)], input2: vec![(1, 1)] },
        Instruction::Div {
            input1: vec![(3, 1)],
            input2: vec![(0, 1)],
            divisor: DIVISOR,
        },
        Instruction::Lookup { input: vec![(4, 1)], tp: LookupType::Relu },
    ];
    let program = Program::new(instructions, weights);
    let aux_start = program.execute(&input).len();
    let circuit = program.compile(input.len(), aux_start, table()).ok().unwrap();
    let enc = ProgramEncoding::from_program(&program, input.len(), aux_start);
    (program, enc, circuit)
}

fn setup(circuit: Circuit, seed: u64) -> (ProvingKey, VerifierKey) {
    let mut rng = StdRng::seed_from_u64(seed);
    let (kzg_pp, kzg_vp) = srs(5, &mut rng);
    Preprocessor::build(kzg_pp, kzg_vp, circuit)
}

fn matmult_program() -> (Program, Vec<i64>) {
    let weights = vec![1, 1, 0, 0, 1];
    let input = vec![1, 2];
    let instructions = vec![
        Instruction::MatMult { m: 1, n: 2, k: 2, start1: weights.len(), start2: 1 },
        Instruction::Div {
            input1: vec![(weights.len() + input.len(), 1)],
            input2: vec![(0, 1)],
            divisor: DIVISOR,
        },
        Instruction::Lookup {
            input: vec![(weights.len() + input.len() + 2, 1)],
            tp: LookupType::Relu,
        },
    ];
    (Program::new(instructions, weights), input)
}

fn matmult_fixture() -> (ProgramEncoding, Circuit) {
    let (program, input) = matmult_program();
    let aux_start = program.execute(&input).len();
    let circuit = program.compile(input.len(), aux_start, table()).ok().unwrap();
    let enc = ProgramEncoding::from_program(&program, input.len(), aux_start);
    (enc, circuit)
}

fn conv_fixture() -> (ProgramEncoding, Circuit) {
    let raw_weights = vec![1, 2, 3, 4, 5, 6, 7, 8, 1, -1, 2, -2, 3, -3, 4, -4];
    let input = vec![1, 2, 3, 4, -1, 0, 2, 1];
    let mut weights = vec![1];
    weights.extend(raw_weights.iter().copied());
    let conv_out = weights.len() + input.len();
    let instructions = vec![
        Instruction::Conv {
            n: 2,
            m: 2,
            in_channels: 2,
            out_channels: 2,
            start1: weights.len(),
            start2: 1,
        },
        Instruction::Lookup { input: vec![(conv_out, 1)], tp: LookupType::Relu },
        Instruction::Lookup { input: vec![(conv_out + 1, 1)], tp: LookupType::Relu },
    ];
    let program = Program::new(instructions, weights);
    let aux_start = program.execute(&input).len();
    let circuit = program.compile(input.len(), aux_start, table()).ok().unwrap();
    let enc = ProgramEncoding::from_program(&program, input.len(), aux_start);
    (enc, circuit)
}

#[test]
fn registration_round_trips() {
    let (_program, enc, circuit) = fixture();
    let (pk, vk) = setup(circuit, 101);
    let mut rng = StdRng::seed_from_u64(7);
    let mut ro = oracle(20000, &mut rng);
    let (key, proof) = Registrar::register(&pk, &vk, &enc, &mut ro).ok().unwrap();
    assert!(Registrar::verify(&vk, &key, proof, &mut ro));
}

#[test]
fn registration_round_trips_with_matmult() {
    let (enc, circuit) = matmult_fixture();
    let (pk, vk) = setup(circuit, 111);
    let mut rng = StdRng::seed_from_u64(19);
    let mut ro = oracle(20000, &mut rng);
    let (key, proof) = Registrar::register(&pk, &vk, &enc, &mut ro).ok().unwrap();
    assert!(Registrar::verify(&vk, &key, proof, &mut ro));
}

#[test]
fn registration_round_trips_with_conv() {
    let (enc, circuit) = conv_fixture();
    let (pk, vk) = setup(circuit, 113);
    let mut rng = StdRng::seed_from_u64(23);
    let mut ro = oracle(20000, &mut rng);
    let (key, proof) = Registrar::register(&pk, &vk, &enc, &mut ro).ok().unwrap();
    assert!(Registrar::verify(&vk, &key, proof, &mut ro));
}

#[test]
fn registration_rejects_shifted_matmult_operand() {
    let (enc, mut circuit) = matmult_fixture();
    circuit.a.rows[enc.cr[0]].elems[0].0 += 1;
    let (pk, vk) = setup(circuit, 115);
    let profile = RegistrationProfile::new(&vk, &enc);
    let witness = ProgramWitness::build(&enc, &pk.circuit, &profile).unwrap();
    let key = RegistrationKey { profile, commits: witness.commit(&pk.kzg_pp) };
    let mut rng = StdRng::seed_from_u64(29);
    let mut ro = oracle(20000, &mut rng);
    let proof = Registrar::prove(&pk, &key, &witness, &mut ro);
    assert!(proof.is_none(), "prover certified a shifted operand");
}

#[test]
fn registration_rejects_reordered_conv_kernel() {
    let (enc, mut circuit) = conv_fixture();
    let row = &mut circuit.b.rows[enc.cr[0]];
    let first = row.elems[0].2;
    row.elems[0].2 = row.elems[1].2;
    row.elems[1].2 = first;
    let (pk, vk) = setup(circuit, 117);
    let profile = RegistrationProfile::new(&vk, &enc);
    let witness = ProgramWitness::build(&enc, &pk.circuit, &profile).unwrap();
    let key = RegistrationKey { profile, commits: witness.commit(&pk.kzg_pp) };
    let mut rng = StdRng::seed_from_u64(31);
    let mut ro = oracle(20000, &mut rng);
    let proof = Registrar::prove(&pk, &key, &witness, &mut ro);
    assert!(proof.is_none(), "prover certified a reordered kernel");
}

#[test]
fn registration_rejects_relabelled_output_cell() {
    let (_program, enc, mut circuit) = fixture();
    circuit.c.rows[enc.cr[0]].elems[0].0 += 1;
    let (pk, vk) = setup(circuit, 105);
    let mut rng = StdRng::seed_from_u64(11);
    let mut ro = oracle(20000, &mut rng);

    let err = match Registrar::register(&pk, &vk, &enc, &mut ro) {
        Ok(_) => panic!("a relabelled output cell should not be registrable"),
        Err(err) => err,
    };
    assert!(matches!(err, RegistrationError::NotCompiled(_)));

    let profile = RegistrationProfile::new(&vk, &enc);
    let witness = ProgramWitness::build(&enc, &pk.circuit, &profile).unwrap();
    let key = RegistrationKey { profile, commits: witness.commit(&pk.kzg_pp) };
    let proof = Registrar::prove(&pk, &key, &witness, &mut ro);
    assert!(proof.is_none(), "prover produced a certificate anyway");
}

#[test]
fn registration_rejects_swapped_lookup_type() {
    let (_program, enc, mut circuit) = fixture();
    circuit.tp[enc.lr[1] + 1] = Fr::from_i64(LookupType::Relu.tag());
    let (pk, vk) = setup(circuit, 107);
    let profile = RegistrationProfile::new(&vk, &enc);
    let witness = ProgramWitness::build(&enc, &pk.circuit, &profile).unwrap();
    let key = RegistrationKey { profile, commits: witness.commit(&pk.kzg_pp) };
    let mut rng = StdRng::seed_from_u64(13);
    let mut ro = oracle(20000, &mut rng);
    let proof = Registrar::prove(&pk, &key, &witness, &mut ro);
    assert!(proof.is_none(), "prover certified the wrong lookup type");
}

#[test]
fn registration_and_inference_share_a_verifier_key() {
    let (program, input) = matmult_program();
    let trace = program.execute(&input);
    let aux_start = trace.len();
    let circuit = program.compile(input.len(), aux_start, table()).ok().unwrap();
    let enc = ProgramEncoding::from_program(&program, input.len(), aux_start);
    let (pk, vk) = setup(circuit, 119);

    let mut rng = StdRng::seed_from_u64(37);
    let mut reg_ro = oracle(20000, &mut rng);
    let (key, cert) = Registrar::register(&pk, &vk, &enc, &mut reg_ro).ok().unwrap();
    assert!(Registrar::verify(&vk, &key, cert, &mut reg_ro));

    let gamma = draw(&mut rng);
    let z = program.gen_z(enc.weight_len + enc.input_len, &trace, gamma);
    let mut ro = oracle(1000, &mut rng);
    let proof = Prover::new(pk).prove(&z, gamma, &mut ro);
    assert!(Verifier::new(vk).verify(proof, gamma, &mut ro));
}

#[test]
fn registration_rejects_foreign_circuit() {
    let (_program, enc, circuit) = fixture();
    let (pk, vk) = setup(circuit.clone(), 109);
    let mut rng = StdRng::seed_from_u64(17);
    let mut ro = oracle(20000, &mut rng);
    let (key, proof) = Registrar::register(&pk, &vk, &enc, &mut ro).ok().unwrap();

    let mut other = circuit;
    other.a.rows[enc.cr[0]].elems[0].1 = Fr::from_u64(9);
    let (_pk2, vk2) = setup(other, 109);
    let accepted = Registrar::verify(&vk2, &key, proof, &mut ro);
    assert!(!accepted, "certificate verified against a foreign circuit");
}

#[test]
fn a_certificate_for_another_profile_is_refused() {
    let (_program, enc, circuit) = fixture();
    let (pk, vk) = setup(circuit, 121);
    let mut rng = StdRng::seed_from_u64(41);
    let mut ro = oracle(20000, &mut rng);
    let (mut key, proof) = Registrar::register(&pk, &vk, &enc, &mut ro).ok().unwrap();
    key.profile.weight_len += 1;
    assert!(!Registrar::verify(&vk, &key, proof, &mut ro));
    assert!(!Registrar::verify(&vk, &key, Proof::new(), &mut ro));
}

/// A product, a division, and lookups of the result, `lookups` times.
fn chain_fixture(lookups: usize) -> (ProgramEncoding, Circuit) {
    let weights = vec![1, 3];
    let input = vec![5];
    let mut instructions = vec![
        Instruction::AddMult { input1: vec![(2, 1)], input2: vec![(1, 1)] },
        Instruction::Div { input1: vec![(3, 1)], input2: vec![(0, 1)], divisor: DIVISOR },
    ];
    for k in 0..lookups {
        instructions
            .push(Instruction::Lookup { input: vec![(4 + k, 1)], tp: LookupType::Relu });
    }
    let program = Program::new(instructions, weights);
    let aux_start = program.execute(&input).len();
    let circuit = program.compile(input.len(), aux_start, table()).ok().unwrap();
    let enc = ProgramEncoding::from_program(&program, input.len(), aux_start);
    (enc, circuit)
}

/// Registers a program with so many instructions, and gives the verdict on its certificate.
fn registered(instructions: usize, seed: u64) -> bool {
    let (enc, circuit) = chain_fixture(instructions - 2);
    assert_eq!(enc.len(), instructions);
    let (pk, vk) = setup(circuit, 131);
    let mut rng = StdRng::seed_from_u64(seed);
    let mut ro = oracle(20000, &mut rng);
    let (key, proof) = Registrar::register(&pk, &vk, &enc, &mut ro).ok().unwrap();
    Registrar::verify(&vk, &key, proof, &mut ro)
}

#[test]
fn programs_of_other_lengths_are_accepted() {
    assert!(registered(5, 41));
    assert!(registered(6, 41));
}

#[test]
fn a_program_of_two_instructions_is_accepted() {
    assert!(registered(2, 43));
}

#[test]
fn a_program_of_four_instructions_is_accepted() {
    assert!(registered(4, 43));
}

#[test]
fn a_program_of_eight_instructions_is_accepted() {
    assert!(registered(8, 43));
}

#[test]
fn the_counters_have_a_place_after_the_instructions() {
    for (n, log) in [(2, 2), (3, 2), (4, 3), (7, 3), (8, 4)] {
        let (enc, circuit) = chain_fixture(n - 2);
        let (_, vk) = setup(circuit, 131);
        assert_eq!(RegistrationProfile::new(&vk, &enc).log_instr(), log);
    }
}

#[test]
fn the_counters_advance_by_what_the_instructions_take() {
    let (enc, circuit) = chain_fixture(2);
    let (pk, vk) = setup(circuit, 131);
    let profile = RegistrationProfile::new(&vk, &enc);
    let witness = ProgramWitness::build(&enc, &pk.circuit, &profile).unwrap();
    for (ctr, dctr) in witness.ctr.iter().zip(witness.dctr.iter()) {
        assert_eq!(ctr.0.len(), 8);
        for i in 0..7 {
            assert!(ctr.0[i + 1] == ctr.0[i] + dctr.0[i]);
        }
    }
    let at = |i: usize, x: i64| witness.ctr.iter().any(|c| c.0[i] == Fr::from_i64(x));
    assert!(at(0, 3));
    assert!(at(7, 7));
}

#[test]
fn public_vectors_are_evaluated_without_being_written_out() {
    let mut rng = StdRng::seed_from_u64(47);
    let point = draws(4, &mut rng);
    let numbers: Vec<Fr> = (0..16).map(|i: i64| Fr::from_i64(i)).collect();
    let ones = vec![Fr::one(); 16];
    let some: Vec<Fr> =
        (0..16).map(|i| if (3..11).contains(&i) { Fr::one() } else { Fr::zero() }).collect();
    let at = |column: Vec<Fr>| MlPoly::new(column).eval(&point);
    assert!(public_eval(Tab::Identity, &point) == at(numbers));
    assert!(public_eval(Tab::One, &point) == at(ones));
    assert!(public_eval(Tab::Ind(3, 11), &point) == at(some));
    assert!(public_eval(Tab::Ind(5, 5), &point) == Fr::zero());
}

#[test]
fn a_program_without_parameters_is_not_certified() {
    let instructions = vec![
        Instruction::AddMult { input1: vec![(0, 1)], input2: vec![(1, 1)] },
        Instruction::Lookup { input: vec![(2, 1)], tp: LookupType::Relu },
    ];
    let program = Program::new(instructions, Vec::new());
    let input = vec![5, 3];
    let aux_start = program.execute(&input).len();
    let circuit = program.compile(input.len(), aux_start, table()).ok().unwrap();
    let enc = ProgramEncoding::from_program(&program, input.len(), aux_start);
    let (pk, vk) = setup(circuit, 137);
    let mut ro = oracle(20000, &mut StdRng::seed_from_u64(53));
    assert!(matches!(
        Registrar::register(&pk, &vk, &enc, &mut ro),
        Err(RegistrationError::NotProvable)
    ));
}
