//! Multilinear polynomials.
use ark_ff::{PrimeField, UniformRand};
use rand::rngs::StdRng;
use rand::SeedableRng;
use pr1cs::field::{Fr, Limbs};
use pr1cs::poly::MlPoly;

/// A field element drawn by a generator.
fn draw(rng: &mut StdRng) -> Fr {
    let x = ark_bn254::Fr::rand(rng).into_bigint().0;
    Fr::from_limbs(Limbs { l0: x[0], l1: x[1], l2: x[2], l3: x[3] }).unwrap()
}

fn draws(n: usize, rng: &mut StdRng) -> Vec<Fr> {
    (0..n).map(|_| draw(rng)).collect()
}

#[test]
fn poly_it_works() {
    let nv = 10;
    let mut rng = StdRng::seed_from_u64(1);
    let poly = MlPoly(draws(1 << nv, &mut rng));
    let point = draws(nv, &mut rng);
    let v = poly.clone().eval(&point);
    let eq_poly = MlPoly::new_eq(&point);
    let v2 = poly.0.iter().zip(eq_poly.0.iter()).fold(Fr::zero(), |acc, (&i, &j)| acc + i * j);
    assert!(v == v2);
    let point2 = draws(nv, &mut rng);
    assert!(eq_poly.eval(&point2) == MlPoly::eval_eq(&point, &point2));
}

#[test]
fn test_eval_eq_pref() {
    let k = 10;
    let mut rng = StdRng::seed_from_u64(2);
    let r = draws(k, &mut rng);
    let eq_poly = MlPoly::new_eq(&r);

    for n in [1, 2, 3, 5, 7, 8, 13, 100, 511, 512, 1000, 1024] {
        let m = (u32::BITS - (n as u32 - 1).leading_zeros()) as usize;
        let point = draws(m, &mut rng);
        let naive = MlPoly::new(eq_poly.0[..n].to_vec()).eval(&point);
        let fast = MlPoly::eval_eq_pref(&r, &point, n);
        assert!(naive == fast, "mismatch at n={}", n);
    }

    let point1 = draws(1, &mut rng);
    assert!(MlPoly::eval_eq_pref(&r, &point1, 0) == Fr::zero());
}

#[test]
fn a_polynomial_has_its_values_at_the_vertices() {
    let poly = MlPoly::new((0..6).map(|i| Fr::from_i64(10 + i)).collect());
    for i in 0..8usize {
        let point: Vec<Fr> = (0..3).map(|j| Fr::from_usize((i >> j) & 1)).collect();
        let want = if i < 6 { 10 + i as i64 } else { 0 };
        assert!(poly.clone().eval(&point) == Fr::from_i64(want));
    }
}

#[test]
fn the_value_between_vertices_is_linear() {
    let poly = MlPoly::new(vec![Fr::from_i64(3), Fr::from_i64(5)]);
    assert!(poly.eval(&[Fr::from_i64(10)]) == Fr::from_i64(23));
}

#[test]
fn folding_keeps_the_value() {
    let mut rng = StdRng::seed_from_u64(3);
    let poly = MlPoly::new(draws(13, &mut rng));
    let point = draws(4, &mut rng);
    let mut folded = poly.clone();
    folded.fold(&point[..2]);
    assert_eq!(folded.0.len(), 4);
    assert!(folded.eval(&point[2..]) == poly.eval(&point));
}

#[test]
fn splitting_keeps_the_values() {
    let poly = MlPoly::new((0..7).map(Fr::from_i64).collect());
    let parts = poly.split(3);
    let all: Vec<Fr> = parts.iter().flat_map(|p| p.0.iter().copied()).collect();
    for i in 0..7 {
        assert!(all[i] == Fr::from_usize(i));
    }
}

#[test]
fn a_prefix_of_ones_counts_its_vertices() {
    let mut rng = StdRng::seed_from_u64(4);
    let point = draws(4, &mut rng);
    for n in [0, 1, 5, 15, 16, 40] {
        let ones = vec![Fr::one(); n.min(16)];
        let want = if n == 0 { Fr::zero() } else { MlPoly::new(ones).eval(&point) };
        assert!(MlPoly::eval_ones_pref(&point, n) == want);
    }
}
