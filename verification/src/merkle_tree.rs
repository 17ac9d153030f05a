//! Merkle trees over blake3.
use vstd::prelude::*;
use vstd::arithmetic::power::*;
use ark_ff::PrimeField;
use ark_serialize::CanonicalSerialize;
use rs_merkle::{Hasher, MerkleProof, MerkleTree};
use crate::field::{Fr, Limbs, modulus, residue, values};

verus! {

/// The hash of the trees.
#[derive(Debug, Clone)]
pub struct Blake32 {}

/// The blake3 hash of some bytes.
pub uninterp spec fn blake3_of(data: Seq<u8>) -> Seq<u8>;

/// `blake3::hash`: the hash is a function of the bytes.
#[verifier::external_body]
fn blake3_hash(data: &[u8]) -> (out: [u8; 32])
    ensures
        out@ == blake3_of(data@),
{
    *blake3::hash(data).as_bytes()
}

impl Hasher for Blake32 {
    type Hash = [u8; 32];

    fn hash(data: &[u8]) -> (out: [u8; 32])
        ensures
            out@ == blake3_of(data@),
    {
        blake3_hash(data)
    }
}

/// Hashes as sequences of bytes.
pub open spec fn hashes(v: Seq<[u8; 32]>) -> Seq<Seq<u8>> {
    v.map_values(|h: [u8; 32]| h@)
}

/// The hashes of some byte strings.
pub open spec fn hashed(v: Seq<Vec<u8>>) -> Seq<Seq<u8>> {
    v.map_values(|x: Vec<u8>| blake3_of(x@))
}

/// Indices as integers.
pub open spec fn positions(v: Seq<usize>) -> Seq<int> {
    v.map_values(|x: usize| x as int)
}

/// The indices grow, and are below `n`.
pub open spec fn increasing(idx: Seq<int>, n: int) -> bool {
    &&& forall|i: int, j: int| 0 <= i < j < idx.len() ==> #[trigger] idx[i] < #[trigger] idx[j]
    &&& forall|i: int| 0 <= i < idx.len() ==> 0 <= #[trigger] idx[i] < n
}

/// The leaves at some places.
pub open spec fn picked(leaves: Seq<Seq<u8>>, idx: Seq<int>) -> Seq<Seq<u8>> {
    idx.map_values(|i: int| leaves[i])
}

/// A tree of the outside crate.
#[verifier::external_body]
pub struct HashTree {
    tree: MerkleTree<Blake32>,
}

/// The leaves of a tree.
pub uninterp spec fn leaves_of(tree: HashTree) -> Seq<Seq<u8>>;

/// The root of the tree with the given leaves.
pub uninterp spec fn merkle_root(leaves: Seq<Seq<u8>>) -> Seq<u8>;

/// The root that an opening leads to, for leaves at some places of a tree with `n`
/// leaves.
pub uninterp spec fn path_root(
    bytes: Seq<u8>,
    idx: Seq<int>,
    leaves: Seq<Seq<u8>>,
    n: int,
) -> Option<Seq<u8>>;

/// The opening of the leaves at some places.
pub uninterp spec fn opening_of(leaves: Seq<Seq<u8>>, idx: Seq<int>) -> Seq<u8>;

/// `MerkleTree::from_leaves` of `rs_merkle`: the tree has the given leaves.
#[verifier::external_body]
fn tree_from_leaves(leaves: &Vec<[u8; 32]>) -> (out: HashTree)
    ensures
        leaves_of(out) == hashes(leaves@),
{
    HashTree { tree: MerkleTree::<Blake32>::from_leaves(leaves) }
}

/// `MerkleTree::clone` of `rs_merkle`: the copy has the same leaves.
#[verifier::external_body]
fn tree_copy(tree: &HashTree) -> (out: HashTree)
    ensures
        leaves_of(out) == leaves_of(*tree),
{
    HashTree { tree: tree.tree.clone() }
}

/// `MerkleTree::root` of `rs_merkle`: the root of a tree with a leaf is a function
/// of the leaves, and a tree without leaves has none.
#[verifier::external_body]
fn tree_root(tree: &HashTree) -> (out: Option<[u8; 32]>)
    ensures
        out is Some <==> leaves_of(*tree).len() > 0,
        out is Some ==> (out->0)@ == merkle_root(leaves_of(*tree)),
{
    tree.tree.root()
}

/// `MerkleTree::proof` and `MerkleProof::to_bytes` of `rs_merkle`: the opening is a
/// function of the leaves and the indices. Where the indices grow, it leads to the
/// root of the tree; where it leads for other indices is left unsaid.
#[verifier::external_body]
fn tree_proof(tree: &HashTree, leaf_indices: &[usize]) -> (out: Vec<u8>)
    ensures
        out@ == opening_of(leaves_of(*tree), positions(leaf_indices@)),
        leaf_indices@.len() > 0 && increasing(
            positions(leaf_indices@),
            leaves_of(*tree).len() as int,
        ) ==> path_root(
            out@,
            positions(leaf_indices@),
            picked(leaves_of(*tree), positions(leaf_indices@)),
            leaves_of(*tree).len() as int,
        ) == Some(merkle_root(leaves_of(*tree))),
{
    tree.tree.proof(leaf_indices).to_bytes()
}

/// `MerkleProof::root` of `rs_merkle`, on an opening read by its `TryFrom`: the root
/// is a function of the arguments. There is none for bytes that are no opening, or
/// for leaves that the opening does not lead anywhere from.
#[verifier::external_body]
fn proof_root(
    bytes: Vec<u8>,
    indices: &[usize],
    leaves: &Vec<[u8; 32]>,
    n: usize,
) -> (out: Option<[u8; 32]>)
    ensures
        out is Some <==> path_root(bytes@, positions(indices@), hashes(leaves@), n as int) is Some,
        out is Some ==> path_root(bytes@, positions(indices@), hashes(leaves@), n as int) == Some(
            (out->0)@,
        ),
{
    let proof = MerkleProof::<Blake32>::try_from(bytes).ok()?;
    proof.root(indices, leaves, n).ok()
}

/// `MerkleProof::verify` of `rs_merkle`, on an opening read by its `TryFrom`: whether
/// the opening leads to the root.
#[verifier::external_body]
fn proof_verify(
    bytes: Vec<u8>,
    root: [u8; 32],
    indices: &[usize],
    leaves: &Vec<[u8; 32]>,
    n: usize,
) -> (out: bool)
    ensures
        out == (path_root(bytes@, positions(indices@), hashes(leaves@), n as int) == Some(root@)),
{
    match MerkleProof::<Blake32>::try_from(bytes) {
        Ok(proof) => proof.verify(root, indices, leaves, n),
        Err(_) => false,
    }
}

/// The bytes of a number, the least significant first.
pub open spec fn le_bytes(x: int, n: nat) -> Seq<u8> {
    Seq::new(n, |i: int| ((x / pow(256, i as nat)) % 256) as u8)
}

/// `CanonicalSerialize::serialize_compressed` of `ark_bn254::Fr`: the residue in
/// thirty-two bytes, the least significant first.
#[verifier::external_body]
fn field_bytes(x: Limbs) -> (out: Vec<u8>)
    requires
        x.value() < modulus(),
    ensures
        out@ == le_bytes(x.value(), 32),
{
    let f = ark_bn254::Fr::from_bigint(ark_ff::BigInt(x.words())).unwrap();
    let mut bytes = Vec::new();
    f.serialize_compressed(&mut bytes).unwrap();
    bytes
}

/// The bytes of the first `n` elements, one after the other.
pub open spec fn fields_bytes(v: Seq<int>, n: int) -> Seq<u8>
    decreases n,
{
    if n <= 0 {
        Seq::empty()
    } else {
        fields_bytes(v, n - 1) + le_bytes(residue(v[n - 1]), 32)
    }
}

/// The number that bytes make, the least significant first.
pub open spec fn bytes_value(b: Seq<u8>) -> int
    decreases b.len(),
{
    if b.len() == 0 {
        0
    } else {
        b[0] as int + 256 * bytes_value(b.drop_first())
    }
}

proof fn lemma_le_bytes(x: int, n: nat)
    requires
        0 <= x < pow(256, n),
    ensures
        bytes_value(le_bytes(x, n)) == x,
    decreases n,
{
    reveal(pow);
    if n > 0 {
        let b = le_bytes(x, n);
        let m = (n - 1) as nat;
        let y = x / 256;
        assert(pow(256, n) == 256 * pow(256, m));
        assert(0 <= y < pow(256, m));
        lemma_le_bytes(y, m);
        assert(b.drop_first() =~= le_bytes(y, m)) by {
            assert forall|i: int| 0 <= i < m implies #[trigger] b.drop_first()[i] == le_bytes(
                y,
                m,
            )[i] by {
                let q = pow(256, i as nat);
                lemma_pow_positive(256, i as nat);
                assert(pow(256, (i + 1) as nat) == 256 * q);
                vstd::arithmetic::div_mod::lemma_div_denominator(x, 256, q);
            }
        }
        assert(pow(256, 0) == 1);
        assert(b[0] == (x % 256) as u8);
    }
}

proof fn lemma_word_bytes()
    ensures
        modulus() < pow(256, 32),
{
    crate::field::lemma_modulus();
    assert(pow(256, 8) == 0x1_0000_0000_0000_0000) by {
        reveal_with_fuel(pow, 9);
    }
    let q = 0x1_0000_0000_0000_0000int;
    lemma_pow_adds(256, 8, 8);
    lemma_pow_adds(256, 16, 16);
    let r = 0x1_0000_0000_0000_0000_0000_0000_0000_0000int;
    assert(q * q == r);
    assert(pow(256, 16) == r);
    assert(pow(256, 32) == r * r);
    assert(r * r >= 0x4000_0000_0000_0000_0000_0000_0000_0000 * r);
    assert(0x4000_0000_0000_0000_0000_0000_0000_0000 * r
        == 0x4000_0000_0000_0000_0000_0000_0000_0000_0000_0000_0000_0000_0000_0000_0000_0000int);
}

/// Each field element takes thirty-two bytes, from which its residue is read back.
pub proof fn law_fields_bytes(v: Seq<int>, n: int, i: int)
    requires
        0 <= i < n <= v.len(),
    ensures
        fields_bytes(v, n).len() == 32 * n,
        bytes_value(fields_bytes(v, n).subrange(32 * i, 32 * i + 32)) == residue(v[i]),
    decreases n,
{
    if n > 1 {
        law_fields_bytes(
            v,
            n - 1,
            if i < n - 1 {
                i
            } else {
                0
            },
        );
    }
    let head = fields_bytes(v, n - 1);
    let all = fields_bytes(v, n);
    let last = le_bytes(residue(v[n - 1]), 32);
    assert(head.len() == 32 * (n - 1));
    if i < n - 1 {
        assert(all.subrange(32 * i, 32 * i + 32) =~= head.subrange(32 * i, 32 * i + 32));
    } else {
        assert(all.subrange(32 * i, 32 * i + 32) =~= last);
        crate::field::lemma_residue_bound(v[n - 1]);
        lemma_word_bytes();
        lemma_le_bytes(residue(v[n - 1]), 32);
    }
}

/// Writes field elements as bytes.
pub struct Serialize;

impl Serialize {
    /// The bytes of some field elements, one after the other.
    pub fn serialize_fields(v: &[Fr]) -> (out: Vec<u8>)
        ensures
            out@ == fields_bytes(values(v@), v@.len() as int),
    {
        let mut bytes: Vec<u8> = Vec::new();
        for i in 0..v.len()
            invariant
                bytes@ == fields_bytes(values(v@), i as int),
        {
            let limbs = v[i].to_limbs();
            proof {
                crate::field::lemma_residue_bound(v[i as int]@);
            }
            let mut next = field_bytes(limbs);
            let ghost before = bytes@;
            let ghost more = next@;
            bytes.append(&mut next);
            assert(bytes@ =~= before + more);
        }
        bytes
    }
}

fn hash_all(v: &Vec<Vec<u8>>) -> (out: Vec<[u8; 32]>)
    ensures
        hashes(out@) == hashed(v@),
{
    let mut out: Vec<[u8; 32]> = Vec::new();
    for i in 0..v.len()
        invariant
            out.len() == i,
            forall|j: int| 0 <= j < i ==> (#[trigger] out[j])@ == hashed(v@)[j],
    {
        out.push(Blake32::hash(v[i].as_slice()));
    }
    assert(hashes(out@) =~= hashed(v@));
    out
}

/// Opens leaves of a tree.
pub struct MerkleTreeProver {
    merkle_tree: HashTree,
    leave_num: usize,
}

impl MerkleTreeProver {
    /// The hashes of the leaves.
    pub closed spec fn leaves(&self) -> Seq<Seq<u8>> {
        leaves_of(self.merkle_tree)
    }

    #[verifier::type_invariant]
    spec fn inv(self) -> bool {
        self.leave_num == leaves_of(self.merkle_tree).len()
    }

    /// The prover for some leaves.
    pub fn new(leaf_values: &Vec<Vec<u8>>) -> (out: MerkleTreeProver)
        ensures
            out.leaves() == hashed(leaf_values@),
    {
        let leaves = hash_all(leaf_values);
        let tree = tree_from_leaves(&leaves);
        assert(leaves_of(tree).len() == leaf_values.len());
        MerkleTreeProver { merkle_tree: tree, leave_num: leaf_values.len() }
    }

    /// The number of leaves.
    pub fn leave_num(&self) -> (out: usize)
        ensures
            out == self.leaves().len(),
    {
        proof {
            use_type_invariant(&*self);
        }
        self.leave_num
    }

    /// The root of the tree.
    pub fn commit(&self) -> (out: [u8; 32])
        requires
            self.leaves().len() > 0,
        ensures
            out@ == merkle_root(self.leaves()),
    {
        match tree_root(&self.merkle_tree) {
            Some(r) => r,
            None => [0; 32],
        }
    }

    /// The opening of some leaves. Where their indices grow, it leads from them to the
    /// root.
    pub fn open(&self, leaf_indices: &[usize]) -> (out: Vec<u8>)
        ensures
            out@ == opening_of(self.leaves(), positions(leaf_indices@)),
            leaf_indices@.len() > 0 && increasing(
                positions(leaf_indices@),
                self.leaves().len() as int,
            ) ==> path_root(
                out@,
                positions(leaf_indices@),
                picked(self.leaves(), positions(leaf_indices@)),
                self.leaves().len() as int,
            ) == Some(merkle_root(self.leaves())),
    {
        tree_proof(&self.merkle_tree, leaf_indices)
    }
}

impl Clone for MerkleTreeProver {
    fn clone(&self) -> (out: MerkleTreeProver)
        ensures
            out.leaves() == self.leaves(),
    {
        proof {
            use_type_invariant(&*self);
        }
        MerkleTreeProver { merkle_tree: tree_copy(&self.merkle_tree), leave_num: self.leave_num }
    }
}

/// Checks openings of leaves.
#[derive(Debug, Clone)]
pub struct MerkleTreeVerifier {
    pub merkle_root: [u8; 32],
    pub leave_number: usize,
}

impl MerkleTreeVerifier {
    /// The verifier for a root.
    pub fn new(leave_number: usize, merkle_root: &[u8; 32]) -> (out: MerkleTreeVerifier)
        ensures
            out.leave_number == leave_number,
            out.merkle_root == *merkle_root,
    {
        MerkleTreeVerifier { leave_number, merkle_root: *merkle_root }
    }

    /// Whether an opening leads from the leaves to the root.
    pub fn verify(
        &self,
        proof_bytes: Vec<u8>,
        indices: &Vec<usize>,
        leaves: &Vec<Vec<u8>>,
    ) -> (out: bool)
        ensures
            out == (path_root(
                proof_bytes@,
                positions(indices@),
                hashed(leaves@),
                self.leave_number as int,
            ) == Some(self.merkle_root@)),
    {
        let leaf_hashes = hash_all(leaves);
        proof_verify(
            proof_bytes,
            self.merkle_root,
            indices.as_slice(),
            &leaf_hashes,
            self.leave_number,
        )
    }

    /// The root that an opening of one leaf leads to, if it leads anywhere.
    pub fn get_root(
        proof_bytes: Vec<u8>,
        index: usize,
        leaf: Vec<u8>,
        leave_number: usize,
    ) -> (out: Option<[u8; 32]>)
        ensures
            ({
                let r = path_root(
                    proof_bytes@,
                    seq![index as int],
                    seq![blake3_of(leaf@)],
                    leave_number as int,
                );
                match out {
                    Some(x) => r == Some(x@),
                    None => r is None,
                }
            }),
    {
        let mut indices: Vec<usize> = Vec::new();
        indices.push(index);
        let mut leaf_hashes: Vec<[u8; 32]> = Vec::new();
        leaf_hashes.push(Blake32::hash(leaf.as_slice()));
        assert(positions(indices@) =~= seq![index as int]);
        assert(hashes(leaf_hashes@) =~= seq![blake3_of(leaf@)]);
        proof_root(proof_bytes, indices.as_slice(), &leaf_hashes, leave_number)
    }
}

} // verus!
