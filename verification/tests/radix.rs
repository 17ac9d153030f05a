//! Groups of roots of unity.
use ark_ff::{PrimeField, UniformRand};
use rand::rngs::StdRng;
use rand::SeedableRng;
use pr1cs::field::{Fr, Limbs};
use pr1cs::radix2group::Radix2Group;

/// A field element drawn by a generator.
fn draw(rng: &mut StdRng) -> Fr {
    let x = ark_bn254::Fr::rand(rng).into_bigint().0;
    Fr::from_limbs(Limbs { l0: x[0], l1: x[1], l2: x[2], l3: x[3] }).unwrap()
}

fn draws(n: usize, rng: &mut StdRng) -> Vec<Fr> {
    (0..n).map(|_| draw(rng)).collect()
}

#[test]
fn the_order_is_the_next_power_of_two() {
    assert_eq!(Radix2Group::new(0).size(), 1);
    assert_eq!(Radix2Group::new(1).size(), 1);
    assert_eq!(Radix2Group::new(5).size(), 8);
    assert_eq!(Radix2Group::new(8).size(), 8);
}

#[test]
fn elements_are_powers_and_have_inverses() {
    let group = Radix2Group::new(8);
    let g = group.element_at(1);
    assert!(group.element_at(0) == Fr::one());
    assert!(g.pow(8) == Fr::one());
    assert!(g.pow(4) == Fr::from_i64(-1));
    for i in 0..8 {
        assert!(group.element_at(i) == g.pow(i as u64));
        assert!(group.element_at(i) * group.element_inv_at(i) == Fr::one());
    }
}

#[test]
fn a_transform_gives_the_values_at_the_elements() {
    let mut rng = StdRng::seed_from_u64(1);
    let group = Radix2Group::new(8);
    let v = draws(5, &mut rng);
    let out = group.fft(&v);
    assert_eq!(out.len(), 8);
    for i in 0..8 {
        let x = group.element_at(i);
        let want = (0..5).fold(Fr::zero(), |acc, j| acc + v[j] * x.pow(j as u64));
        assert!(out[i] == want);
    }
}

#[test]
fn the_inverse_transform_undoes_the_transform() {
    let mut rng = StdRng::seed_from_u64(2);
    let group = Radix2Group::new(16).clone();
    let v = draws(16, &mut rng);
    let back = group.ifft(&group.fft(&v));
    let forth = group.fft(&group.ifft(&v));
    for i in 0..16 {
        assert!(back[i] == v[i]);
        assert!(forth[i] == v[i]);
    }
}

#[test]
fn only_as_many_coefficients_count_as_there_are_elements() {
    let group = Radix2Group::new(2);
    let v: Vec<Fr> = [1, 2, 4].iter().map(|&x| Fr::from_i64(x)).collect();
    let out = group.fft(&v);
    assert!(out[0] == Fr::from_i64(3));
    assert!(out[1] == Fr::from_i64(-1));
}
