//! Merkle trees.
use ark_ff::{PrimeField, UniformRand};
use rand::rngs::StdRng;
use rand::SeedableRng;
use ark_serialize::{CanonicalDeserialize, CanonicalSerialize};
use pr1cs::field::{Fr, Limbs};
use pr1cs::merkle_tree::{Blake32, MerkleTreeProver, MerkleTreeVerifier, Serialize};
use rs_merkle::Hasher;

/// A field element drawn by a generator.
fn draw(rng: &mut StdRng) -> Fr {
    let x = ark_bn254::Fr::rand(rng).into_bigint().0;
    Fr::from_limbs(Limbs { l0: x[0], l1: x[1], l2: x[2], l3: x[3] }).unwrap()
}


#[test]
fn commit_and_open() {
    let leaf_values = (0..8)
        .map(|x| Serialize::serialize_fields(&[Fr::from_i64(x * 2), Fr::from_i64(x * 2 + 1)]))
        .collect::<Vec<_>>();
    let leave_number = leaf_values.len();
    let prover = MerkleTreeProver::new(&leaf_values);
    assert_eq!(prover.leave_num(), 8);
    let root = prover.commit();
    let verifier = MerkleTreeVerifier::new(leave_number, &root);
    let leaf_indices = vec![2, 3];
    let proof_bytes = prover.open(&leaf_indices);
    let open_values = vec![
        Serialize::serialize_fields(&[Fr::from_i64(2 * 2), Fr::from_i64(2 * 2 + 1)]),
        Serialize::serialize_fields(&[Fr::from_i64(3 * 2), Fr::from_i64(3 * 2 + 1)]),
    ];
    assert!(verifier.verify(proof_bytes, &leaf_indices, &open_values));
}

#[test]
fn serialize() {
    let mut rng = StdRng::seed_from_u64(1);
    for _ in 0..100 {
        let x = draw(&mut rng);
        let bytes = Serialize::serialize_fields(&[x]);
        let y = ark_bn254::Fr::deserialize_compressed(bytes.as_slice()).unwrap();
        let l = x.to_limbs();
        assert_eq!(y.into_bigint().0, [l.l0, l.l1, l.l2, l.l3]);
        let mut again = vec![];
        y.serialize_compressed(&mut again).unwrap();
        assert_eq!(again, bytes);
    }

    for _ in 0..10000 {
        let bytes = (0..30).map(|_| rand::random::<u8>()).collect::<Vec<_>>();
        let _ = <ark_bn254::Fr as ark_ff::Field>::from_random_bytes(&bytes).unwrap();
    }
}

#[test]
fn elements_are_written_with_the_low_byte_first() {
    let bytes = Serialize::serialize_fields(&[Fr::from_i64(0x0102), Fr::zero()]);
    let mut want = vec![0u8; 64];
    want[0] = 2;
    want[1] = 1;
    assert_eq!(bytes, want);
}

#[test]
fn every_set_of_leaves_of_odd_trees_opens() {
    for n in 1..=6usize {
        let leaves: Vec<Vec<u8>> = (0..n).map(|i| vec![i as u8; 3]).collect();
        let prover = MerkleTreeProver::new(&leaves);
        let verifier = MerkleTreeVerifier::new(n, &prover.commit());
        for set in 1..(1usize << n) {
            let idx: Vec<usize> = (0..n).filter(|i| set >> i & 1 == 1).collect();
            let values: Vec<Vec<u8>> = idx.iter().map(|&i| leaves[i].clone()).collect();
            assert!(verifier.verify(prover.open(&idx), &idx, &values));
        }
    }
}

#[test]
fn another_leaf_does_not_open() {
    let leaves: Vec<Vec<u8>> = (0..4u8).map(|i| vec![i]).collect();
    let prover = MerkleTreeProver::new(&leaves);
    let verifier = MerkleTreeVerifier::new(4, &prover.commit());
    let bytes = prover.open(&[1]);
    assert!(!verifier.verify(bytes.clone(), &vec![1], &vec![vec![9]]));
    assert!(!verifier.verify(bytes[1..].to_vec(), &vec![1], &vec![vec![1]]));
    let root = MerkleTreeVerifier::get_root(bytes.clone(), 1, vec![1], 4);
    assert_eq!(root, Some(prover.commit()));
    assert_eq!(MerkleTreeVerifier::get_root(bytes[1..].to_vec(), 1, vec![1], 4), None);
}

#[test]
fn hashing_is_blake3() {
    let empty = Blake32::hash(&[]);
    assert_eq!(empty[..4], [0xaf, 0x13, 0x49, 0xb9]);
    assert_eq!(MerkleTreeProver::new(&vec![vec![]]).commit(), empty);
}

#[test]
fn a_copy_of_a_prover_opens_the_same_leaves() {
    let leaves: Vec<Vec<u8>> = (0..5u8).map(|i| vec![i]).collect();
    let prover = MerkleTreeProver::new(&leaves);
    let copy = prover.clone();
    assert_eq!(copy.commit(), prover.commit());
    assert_eq!(copy.leave_num(), 5);
    assert_eq!(copy.open(&[0, 3]), prover.open(&[0, 3]));
}
