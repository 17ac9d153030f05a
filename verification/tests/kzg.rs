//! Commitments to multilinear polynomials.
use ark_ff::{PrimeField, UniformRand};
use rand::rngs::StdRng;
use rand::SeedableRng;
use pr1cs::field::{Fr, Limbs};
use pr1cs::group::{G1, G2};
use pr1cs::kzg::{Mkzg, MkzgProveParams, MkzgVerParams, LOG_CHUNK_SIZE};
use pr1cs::poly::MlPoly;
use pr1cs::util::RandomOracle;

/// A field element drawn by a generator.
fn draw(rng: &mut StdRng) -> Fr {
    let x = ark_bn254::Fr::rand(rng).into_bigint().0;
    Fr::from_limbs(Limbs { l0: x[0], l1: x[1], l2: x[2], l3: x[3] }).unwrap()
}

fn draws(n: usize, rng: &mut StdRng) -> Vec<Fr> {
    (0..n).map(|_| draw(rng)).collect()
}

fn oracle(n: usize, rng: &mut StdRng) -> RandomOracle {
    RandomOracle::new(draws(n, rng), Vec::new())
}

fn srs(log: usize, rng: &mut StdRng) -> (MkzgProveParams, MkzgVerParams) {
    let g = G1::generator().times(draw(rng));
    let h = G2::generator().times(draw(rng));
    Mkzg::gen_srs(g, h, &draws(log, rng))
}

#[test]
fn kzg_it_works() {
    let log_len = 12;
    let mut rng = StdRng::seed_from_u64(5);
    let poly = MlPoly(draws((1 << log_len) - 100, &mut rng));
    let (pp, vp) = srs(LOG_CHUNK_SIZE, &mut rng);
    let commit = Mkzg::commit(&pp, &poly);
    let points: Vec<Vec<Fr>> = (0..10).map(|_| draws(log_len, &mut rng)).collect();
    let polys: Vec<_> = (0..10).map(|_| poly.clone()).collect();
    let comms: Vec<_> = (0..10).map(|_| commit.clone()).collect();
    let values: Vec<Fr> = points.iter().map(|p| poly.clone().eval(p)).collect();

    let mut random_oracle = oracle(1000, &mut rng);
    let proof = Mkzg::batch_open(&pp, &polys, &points, &mut random_oracle);

    random_oracle.restart();
    assert!(Mkzg::batch_verify(&vp, &points, &comms, &values, &proof, &mut random_oracle));
}

#[test]
fn test_batch_multi_poly() {
    let mut rng = StdRng::seed_from_u64(6);
    let (pp, vp) = srs(LOG_CHUNK_SIZE, &mut rng);

    let poly1 = MlPoly(draws(500, &mut rng));
    let poly2 = MlPoly(draws(2000, &mut rng));
    let poly3 = MlPoly(draws(1 << 12, &mut rng));

    let commit1 = Mkzg::commit(&pp, &poly1);
    let commit2 = Mkzg::commit(&pp, &poly2);
    let commit3 = Mkzg::commit(&pp, &poly3);

    let point1 = draws(9, &mut rng);
    let point2 = draws(11, &mut rng);
    let point3 = draws(12, &mut rng);

    let value1 = poly1.clone().eval(&point1);
    let value2 = poly2.clone().eval(&point2);
    let value3 = poly3.clone().eval(&point3);

    let polys = vec![poly1, poly2, poly3];
    let points = vec![point1, point2, point3];
    let comms = vec![commit1, commit2, commit3];
    let values = vec![value1, value2, value3];

    let mut random_oracle = oracle(1000, &mut rng);
    let proof = Mkzg::batch_open(&pp, &polys, &points, &mut random_oracle);

    random_oracle.restart();
    assert!(Mkzg::batch_verify(&vp, &points, &comms, &values, &proof, &mut random_oracle));
}

#[test]
fn a_joint_opening_of_a_wrong_value_is_refused() {
    let mut rng = StdRng::seed_from_u64(7);
    let (pp, vp) = srs(2, &mut rng);
    let poly = MlPoly(draws(16, &mut rng));
    let commit = Mkzg::commit(&pp, &poly);
    let point = draws(4, &mut rng);
    let wrong = poly.clone().eval(&point) + Fr::one();
    let mut ro = oracle(100, &mut rng);
    let proof = Mkzg::batch_open(&pp, &vec![poly], &vec![point.clone()], &mut ro);
    ro.restart();
    let fine = Mkzg::batch_verify(&vp, &vec![point], &vec![commit], &vec![wrong], &proof, &mut ro);
    assert!(!fine);
}

#[test]
fn commitments_add_up() {
    let mut rng = StdRng::seed_from_u64(8);
    let (pp, _vp) = srs(3, &mut rng);
    let a = draws(12, &mut rng);
    let b = draws(12, &mut rng);
    let sum: Vec<Fr> = a.iter().zip(b.iter()).map(|(&x, &y)| x + y).collect();
    let ca = Mkzg::commit(&pp, &MlPoly(a));
    let cb = Mkzg::commit(&pp, &MlPoly(b));
    let cs = Mkzg::commit(&pp, &MlPoly(sum));
    assert_eq!(cs.0.len(), 2);
    for k in 0..2 {
        let want = ca.0[k].plus(cb.0[k]).to_coords();
        let got = cs.0[k].to_coords();
        assert_eq!((got.x, got.y, got.infinity), (want.x, want.y, want.infinity));
    }
}

#[test]
fn short_polynomials_open_against_longer_chunks() {
    let mut rng = StdRng::seed_from_u64(9);
    let (pp, vp) = srs(4, &mut rng);
    let poly = MlPoly(draws(3, &mut rng));
    let commit = Mkzg::commit(&pp, &poly);
    let point = draws(2, &mut rng);
    let (proof, value) = Mkzg::open(&pp, &poly, &point);
    assert!(value == poly.clone().eval(&point));
    assert!(Mkzg::verify(&vp, &point, &commit, value, &proof));
    assert!(!Mkzg::verify(&vp, &point, &commit, value + Fr::one(), &proof));
    let mut ro = oracle(10, &mut rng);
    let proof = Mkzg::batch_open(&pp, &vec![poly], &vec![point.clone()], &mut ro);
    ro.restart();
    assert!(Mkzg::batch_verify(&vp, &vec![point], &vec![commit], &vec![value], &proof, &mut ro));
}

#[test]
fn trimmed_parameters_open_what_fits() {
    let mut rng = StdRng::seed_from_u64(10);
    let (pp, vp) = srs(4, &mut rng);
    let (short_pp, short_vp) = (pp.trim(2), vp.trim(2));
    assert_eq!((short_pp.len(), short_vp.log_len()), (4, 2));
    let poly = MlPoly(draws(4, &mut rng));
    let long = Mkzg::commit(&pp, &poly).0[0].to_coords();
    let commit = Mkzg::commit(&short_pp, &poly);
    assert_eq!(commit.0[0].to_coords().x, long.x);
    let point = draws(2, &mut rng);
    let (proof, value) = Mkzg::open(&short_pp, &poly, &point);
    assert!(Mkzg::verify(&short_vp, &point, &commit, value, &proof));
}
