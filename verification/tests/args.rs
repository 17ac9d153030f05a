//! Sums weighted by `eq`, and sums of fractions.
use ark_ff::{PrimeField, UniformRand};
use rand::rngs::StdRng;
use rand::SeedableRng;
use pr1cs::channel::Channel;
use pr1cs::field::{Fr, Limbs};
use pr1cs::poly::MlPoly;
use pr1cs::registration::args::{
    eq_sumcheck_prove, eq_sumcheck_verify, frac_sum_prove, frac_sum_verify, pad_len, pad_to,
};
use pr1cs::sumcheck::{minus, times, var};
use pr1cs::util::{Proof, RandomOracle};

/// A field element drawn by a generator.
fn draw(rng: &mut StdRng) -> Fr {
    let x = ark_bn254::Fr::rand(rng).into_bigint().0;
    Fr::from_limbs(Limbs { l0: x[0], l1: x[1], l2: x[2], l3: x[3] }).unwrap()
}

fn draws(n: usize, rng: &mut StdRng) -> Vec<Fr> {
    (0..n).map(|_| draw(rng)).collect()
}

fn oracle(n: usize, rng: &mut StdRng) -> RandomOracle {
    RandomOracle::new(draws(n, rng), Vec::new())
}

fn same(a: &[Fr], b: &[Fr]) -> bool {
    a.len() == b.len() && a.iter().zip(b.iter()).all(|(x, y)| x == y)
}

#[test]
fn eq_sumcheck_round_trips() {
    let mut rng = StdRng::seed_from_u64(1);
    let nv = 4;
    let len = 1 << nv;
    let a = draws(len, &mut rng);
    let b = draws(len, &mut rng);
    let eq_point = draws(nv, &mut rng);

    let eq = MlPoly::new_eq(&eq_point).0;
    let claim = (0..len).fold(Fr::zero(), |acc, i| acc + eq[i] * (a[i] * b[i] - a[i]));

    let mut proof = Proof::new();
    let mut ro = oracle(1000, &mut rng);
    let (point, values) = eq_sumcheck_prove(
        &eq_point,
        vec![a.clone(), b.clone()],
        3,
        minus(times(var(0), var(1)), var(0)),
        &Vec::new(),
        &mut proof,
        &mut ro,
    );
    assert!(values[0] == MlPoly::new(a).eval(&point));
    assert!(values[1] == MlPoly::new(b).eval(&point));

    ro.restart();
    let mut chan = Channel { proof, ro, ok: true };
    let (point_v, values_v) = eq_sumcheck_verify(
        &eq_point,
        claim,
        3,
        2,
        &minus(times(var(0), var(1)), var(0)),
        &Vec::new(),
        &mut chan,
    );
    assert!(chan.ok);
    assert!(same(&point_v, &point));
    assert!(same(&values_v, &values));
}

#[test]
#[should_panic]
fn eq_sumcheck_rejects_wrong_claim() {
    let mut rng = StdRng::seed_from_u64(2);
    let nv = 3;
    let len = 1 << nv;
    let a = draws(len, &mut rng);
    let eq_point = draws(nv, &mut rng);

    let mut proof = Proof::new();
    let mut ro = oracle(1000, &mut rng);
    eq_sumcheck_prove(&eq_point, vec![a], 2, var(0), &Vec::new(), &mut proof, &mut ro);
    ro.restart();
    let mut chan = Channel { proof, ro, ok: true };
    let seven = Fr::from_i64(7);
    eq_sumcheck_verify(&eq_point, seven, 2, 1, &var(0), &Vec::new(), &mut chan);
    assert!(chan.ok);
}

#[test]
fn frac_sum_detects_multiset_difference() {
    let mut rng = StdRng::seed_from_u64(3);
    let alpha = draw(&mut rng);
    let left = vec![1i64, 4, 9, 16];
    let equal_right = vec![9i64, 1, 16, 4];
    let unequal_right = vec![9i64, 1, 16, 5];

    let leaves = |values: &[i64]| {
        let num = vec![Fr::one(); values.len()];
        let den: Vec<Fr> = values.iter().map(|&v| alpha + Fr::from_i64(v)).collect();
        (num, den)
    };

    let sum_of = |values: &[i64]| {
        let (num, den) = leaves(values);
        let mut proof = Proof::new();
        let mut ro = oracle(1000, &mut StdRng::seed_from_u64(4));
        let (sum, _, _, _) = frac_sum_prove(num, den, &mut proof, &mut ro);
        sum
    };

    assert!(sum_of(&left) == sum_of(&equal_right));
    assert!(sum_of(&left) != sum_of(&unequal_right));
}

#[test]
fn frac_sum_round_trips() {
    let mut rng = StdRng::seed_from_u64(5);
    let len = 8;
    let num = draws(len, &mut rng);
    let den = draws(len, &mut rng);

    let mut proof = Proof::new();
    let mut ro = oracle(1000, &mut rng);
    let (sum, point, num_eval, den_eval) =
        frac_sum_prove(num.clone(), den.clone(), &mut proof, &mut ro);

    ro.restart();
    let mut chan = Channel { proof, ro, ok: true };
    let (sum_v, point_v, num_v, den_v) = frac_sum_verify(3, &mut chan);
    assert!(chan.ok);
    assert!(sum_v == sum);
    assert!(same(&point_v, &point));
    assert!(num_v == num_eval);
    assert!(den_v == den_eval);
    assert!(num_eval == MlPoly::new(num).eval(&point));
    assert!(den_eval == MlPoly::new(den).eval(&point));
}

#[test]
fn frac_sum_is_the_sum_of_the_fractions() {
    let mut rng = StdRng::seed_from_u64(6);
    let num = vec![Fr::from_i64(1), Fr::from_i64(1)];
    let den = vec![Fr::from_i64(2), Fr::from_i64(3)];
    let mut proof = Proof::new();
    let mut ro = oracle(10, &mut rng);
    let (sum, _, _, _) = frac_sum_prove(num, den, &mut proof, &mut ro);
    assert!(sum * Fr::from_i64(6) == Fr::from_i64(5));
}

#[test]
fn padding_goes_to_the_next_power_of_two() {
    assert_eq!(pad_len(0), 2);
    assert_eq!(pad_len(1), 2);
    assert_eq!(pad_len(2), 2);
    assert_eq!(pad_len(3), 4);
    assert_eq!(pad_len(8), 8);
    assert_eq!(pad_len(9), 16);
    let v = pad_to(vec![Fr::from_i64(4)], 3, Fr::from_i64(-1));
    assert!(same(&v, &[Fr::from_i64(4), Fr::from_i64(-1), Fr::from_i64(-1)]));
}

#[test]
fn a_sum_of_fractions_with_another_total_is_refused() {
    let mut rng = StdRng::seed_from_u64(8);
    let num = draws(4, &mut rng);
    let den = draws(4, &mut rng);
    let mut sent = Proof::new();
    let mut ro = oracle(1000, &mut rng);
    frac_sum_prove(num, den, &mut sent, &mut ro);
    let mut fs = Vec::new();
    while let Some(f) = sent.try_next_f() {
        fs.push(f);
    }
    fs[0] = fs[0] + Fr::one();
    let mut proof = Proof::new();
    proof.push_f(&fs);
    ro.restart();
    let mut chan = Channel { proof, ro, ok: true };
    frac_sum_verify(2, &mut chan);
    assert!(!chan.ok);
}

#[test]
fn eq_sumcheck_round_trips_for_a_high_degree() {
    let mut rng = StdRng::seed_from_u64(9);
    let nv = 3;
    let len = 1 << nv;
    let a = draws(len, &mut rng);
    let eq_point = draws(nv, &mut rng);
    let power = |n: usize| (1..n).fold(var(0), |acc, _| times(acc, var(0)));

    let eq = MlPoly::new_eq(&eq_point).0;
    let claim = (0..len).fold(Fr::zero(), |acc, i| acc + eq[i] * a[i].pow(12));

    let mut proof = Proof::new();
    let mut ro = oracle(1000, &mut rng);
    let (point, values) = eq_sumcheck_prove(
        &eq_point,
        vec![a.clone()],
        13,
        power(12),
        &Vec::new(),
        &mut proof,
        &mut ro,
    );
    ro.restart();
    let mut chan = Channel { proof, ro, ok: true };
    let (point_v, values_v) =
        eq_sumcheck_verify(&eq_point, claim, 13, 1, &power(12), &Vec::new(), &mut chan);
    assert!(chan.ok);
    assert!(same(&point_v, &point));
    assert!(same(&values_v, &values));
    assert!(values[0] == MlPoly::new(a).eval(&point));
}
