//! The groups of the roots of unity whose order is a power of two.
use vstd::prelude::*;
use vstd::arithmetic::power::*;
use vstd::arithmetic::power2::*;
use ark_ff::PrimeField;
use ark_poly::{EvaluationDomain, Radix2EvaluationDomain};
use crate::field::{
    Fr, Limbs, cong, copied, inverse_of, lemma_cong_ops, lemma_residue_bound, lemma_residue_small,
    modulus, residue, values,
};
use crate::poly::at;
use crate::sums::{lemma_pow2_step, sum_to};

verus! {

/// The logarithm of the largest group.
pub const TWO_ADICITY: usize = 28;

/// The least `k` with `n <= 2^k`.
pub open spec fn ceil_log(n: int) -> nat
    decreases n,
{
    if n <= 1 {
        0
    } else {
        1 + ceil_log((n + 1) / 2)
    }
}

/// The generator of the group of order `n`.
pub uninterp spec fn root_of_unity(n: int) -> int;

/// The values of a polynomial at the elements of the group of order `n`, for its
/// first `n` coefficients.
pub open spec fn transform(v: Seq<int>, n: int) -> Seq<int> {
    Seq::new(
        n as nat,
        |i: int| sum_to(n, |j: int| at(v, j) * pow(root_of_unity(n), (i * j) as nat)),
    )
}

/// The coefficients of the polynomial with given values at the elements of the group
/// of order `n`.
pub open spec fn inverse_transform(v: Seq<int>, n: int) -> Seq<int> {
    Seq::new(
        n as nat,
        |i: int|
            inverse_of(n) * sum_to(
                n,
                |j: int| at(v, j) * pow(inverse_of(root_of_unity(n)), (i * j) as nat),
            ),
    )
}

/// The power of the generator of the group of order `n` to the order is one, and to half
/// the order minus one.
pub open spec fn primitive(n: int) -> bool {
    &&& cong(pow(root_of_unity(n), n as nat), 1)
    &&& n > 1 ==> cong(pow(root_of_unity(n), (n / 2) as nat), -1)
}

/// The residues of numbers.
pub open spec fn residues(v: Seq<int>) -> Seq<int> {
    v.map_values(|x: int| residue(x))
}

/// The numbers that limbs hold.
pub open spec fn limb_values(v: Seq<Limbs>) -> Seq<int> {
    v.map_values(|x: Limbs| x.value())
}

/// All the limbs hold residues.
pub open spec fn all_residues(v: Seq<Limbs>) -> bool {
    forall|i: int| 0 <= i < v.len() ==> (#[trigger] v[i]).value() < modulus()
}

/// `Radix2EvaluationDomain::new` of `ark_poly` for `ark_bn254::Fr`, with its `size` and
/// `group_gen`: the order is the least power of two that is large enough, and there is
/// a domain up to the two-adicity of the field. The generator depends on the order
/// alone; its power to the order is one, and to half the order minus one.
#[verifier::external_body]
fn domain_new(size: usize) -> (out: Option<(usize, Limbs)>)
    ensures
        out is Some <==> ceil_log(size as int) <= TWO_ADICITY,
        out is Some ==> {
            let n = (out->0).0 as int;
            &&& n == pow2(ceil_log(size as int))
            &&& (out->0).1.value() == root_of_unity(n)
            &&& root_of_unity(n) < modulus()
            &&& cong(pow(root_of_unity(n), n as nat), 1)
            &&& n > 1 ==> cong(pow(root_of_unity(n), (n / 2) as nat), -1)
        },
{
    let domain = Radix2EvaluationDomain::<ark_bn254::Fr>::new(size)?;
    let z = domain.group_gen.into_bigint().0;
    Some((domain.size(), Limbs { l0: z[0], l1: z[1], l2: z[2], l3: z[3] }))
}

/// `EvaluationDomain::elements` of `ark_poly` for `ark_bn254::Fr`: the powers of the
/// generator from the zeroth on, as many as the order.
#[verifier::external_body]
fn domain_elements(size: usize) -> (out: Vec<Limbs>)
    requires
        ceil_log(size as int) <= TWO_ADICITY,
    ensures
        ({
            let n = pow2(ceil_log(size as int)) as int;
            limb_values(out@) == Seq::new(
                n as nat,
                |i: int| residue(pow(root_of_unity(n), i as nat)),
            )
        }),
{
    let domain = Radix2EvaluationDomain::<ark_bn254::Fr>::new(size).unwrap();
    let all = domain.elements().map(|x| x.into_bigint().0);
    all.map(|z| Limbs { l0: z[0], l1: z[1], l2: z[2], l3: z[3] }).collect()
}

/// `EvaluationDomain::fft` of `ark_poly` for `ark_bn254::Fr`: the values of a
/// polynomial at the elements of the group, for its first coefficients.
#[verifier::external_body]
fn domain_fft(size: usize, v: &Vec<Limbs>) -> (out: Vec<Limbs>)
    requires
        ceil_log(size as int) <= TWO_ADICITY,
        all_residues(v@),
    ensures
        limb_values(out@) == residues(
            transform(limb_values(v@), pow2(ceil_log(size as int)) as int),
        ),
{
    let domain = Radix2EvaluationDomain::<ark_bn254::Fr>::new(size).unwrap();
    let big = v.iter().map(|a| ark_ff::BigInt(a.words()));
    let v: Vec<_> = big.map(|a| ark_bn254::Fr::from_bigint(a).unwrap()).collect();
    let all = domain.fft(&v).into_iter().map(|x| x.into_bigint().0);
    all.map(|z| Limbs { l0: z[0], l1: z[1], l2: z[2], l3: z[3] }).collect()
}

/// `EvaluationDomain::ifft` of `ark_poly` for `ark_bn254::Fr`: the coefficients of the
/// polynomial with given values at the elements of the group.
#[verifier::external_body]
fn domain_ifft(size: usize, v: &Vec<Limbs>) -> (out: Vec<Limbs>)
    requires
        ceil_log(size as int) <= TWO_ADICITY,
        all_residues(v@),
    ensures
        limb_values(out@) == residues(
            inverse_transform(limb_values(v@), pow2(ceil_log(size as int)) as int),
        ),
{
    let domain = Radix2EvaluationDomain::<ark_bn254::Fr>::new(size).unwrap();
    let big = v.iter().map(|a| ark_ff::BigInt(a.words()));
    let v: Vec<_> = big.map(|a| ark_bn254::Fr::from_bigint(a).unwrap()).collect();
    let all = domain.ifft(&v).into_iter().map(|x| x.into_bigint().0);
    all.map(|z| Limbs { l0: z[0], l1: z[1], l2: z[2], l3: z[3] }).collect()
}

/// A group of roots of unity.
pub struct Radix2Group {
    size: usize,
    elements: Vec<Fr>,
}

fn to_limbs(v: &[Fr]) -> (out: Vec<Limbs>)
    ensures
        limb_values(out@) == residues(values(v@)),
        all_residues(out@),
{
    let mut out: Vec<Limbs> = Vec::new();
    for i in 0..v.len()
        invariant
            out.len() == i,
            forall|j: int| 0 <= j < i ==> (#[trigger] out[j]).value() == residue(v[j]@),
    {
        out.push(v[i].to_limbs());
    }
    assert(limb_values(out@) =~= residues(values(v@)));
    assert forall|i: int| 0 <= i < out@.len() implies (#[trigger] out@[i]).value() < modulus() by {
        lemma_residue_bound(v[i]@);
    }
    out
}

fn from_limbs(v: &Vec<Limbs>) -> (out: Vec<Fr>)
    requires
        all_residues(v@),
    ensures
        values(out@) == limb_values(v@),
{
    let mut out: Vec<Fr> = Vec::new();
    for i in 0..v.len()
        invariant
            all_residues(v@),
            out.len() == i,
            forall|j: int| 0 <= j < i ==> (#[trigger] out[j])@ == v[j].value(),
    {
        assert(v@[i as int].value() < modulus());
        match Fr::from_limbs(v[i]) {
            Some(x) => out.push(x),
            None => {},
        }
    }
    assert(values(out@) =~= limb_values(v@));
    out
}

proof fn lemma_residues(v: Seq<Limbs>, w: Seq<int>)
    requires
        limb_values(v) == residues(w),
    ensures
        all_residues(v),
{
    assert(limb_values(v).len() == v.len());
    assert(residues(w).len() == w.len());
    assert forall|i: int| 0 <= i < v.len() implies (#[trigger] v[i]).value() < modulus() by {
        assert(limb_values(v)[i] == v[i].value());
        assert(residues(w)[i] == residue(w[i]));
        lemma_residue_bound(w[i]);
    }
}

impl Radix2Group {
    /// The order of the group.
    pub closed spec fn order(&self) -> int {
        self.size as int
    }

    #[verifier::type_invariant]
    spec fn inv(self) -> bool {
        let n = self.size as int;
        &&& ceil_log(n) <= TWO_ADICITY
        &&& n == pow2(ceil_log(n))
        &&& values(self.elements@) == Seq::new(
            n as nat,
            |i: int| residue(pow(root_of_unity(n), i as nat)),
        )
        &&& cong(pow(root_of_unity(n), n as nat), 1)
        &&& n > 1 ==> cong(pow(root_of_unity(n), (n / 2) as nat), -1)
    }

    /// The least group with at least `size` elements.
    pub fn new(size: usize) -> (out: Radix2Group)
        requires
            ceil_log(size as int) <= TWO_ADICITY,
        ensures
            out.order() == pow2(ceil_log(size as int)),
            primitive(out.order()),
    {
        match domain_new(size) {
            Some((n, _)) => {
                let elements = domain_elements(size);
                proof {
                    let g = root_of_unity(n as int);
                    let w = Seq::new(n as nat, |i: int| pow(g, i as nat));
                    assert(limb_values(elements@) =~= residues(w));
                    lemma_residues(elements@, w);
                    lemma_ceil_log_pow2(ceil_log(size as int));
                }
                Radix2Group { size: n, elements: from_limbs(&elements) }
            },
            None => {
                let mut elements: Vec<Fr> = Vec::new();
                Radix2Group { size: 1, elements }
            },
        }
    }

    /// The values at the elements of the group of the polynomial with given
    /// coefficients, of which only as many count as there are elements.
    pub fn fft(&self, v: &[Fr]) -> (out: Vec<Fr>)
        ensures
            values(out@) == residues(transform(residues(values(v@)), self.order())),
    {
        proof {
            use_type_invariant(&*self);
        }
        let res = domain_fft(self.size, &to_limbs(v));
        proof {
            lemma_residues(res@, transform(residues(values(v@)), self.size as int));
        }
        from_limbs(&res)
    }

    /// The coefficients of the polynomial with given values at the elements of the
    /// group.
    pub fn ifft(&self, v: &[Fr]) -> (out: Vec<Fr>)
        ensures
            values(out@) == residues(inverse_transform(residues(values(v@)), self.order())),
    {
        proof {
            use_type_invariant(&*self);
        }
        let res = domain_ifft(self.size, &to_limbs(v));
        proof {
            lemma_residues(res@, inverse_transform(residues(values(v@)), self.size as int));
        }
        from_limbs(&res)
    }

    /// The element with the given index: that power of the generator.
    pub fn element_at(&self, idx: usize) -> (out: Fr)
        requires
            idx < self.order(),
        ensures
            out@ == residue(pow(root_of_unity(self.order()), idx as nat)),
    {
        proof {
            use_type_invariant(&*self);
            assert(values(self.elements@).len() == self.elements.len());
        }
        let out = self.elements[idx];
        assert(values(self.elements@)[idx as int] == out@);
        out
    }

    /// The inverse of the element with the given index.
    pub fn element_inv_at(&self, idx: usize) -> (out: Fr)
        requires
            idx <= self.order(),
        ensures
            out@ == residue(
                pow(
                    root_of_unity(self.order()),
                    if idx == 0 || idx == self.order() {
                        0
                    } else {
                        (self.order() - idx) as nat
                    },
                ),
            ),
            cong(out@ * pow(root_of_unity(self.order()), idx as nat), 1),
    {
        proof {
            use_type_invariant(&*self);
            assert(values(self.elements@).len() == self.elements.len());
        }
        let ghost n = self.size as int;
        let ghost g = root_of_unity(n);
        let k: usize = if idx == 0 {
            0
        } else {
            self.size - idx
        };
        proof {
            lemma_pow2_pos(ceil_log(n));
            lemma_pow0(g);
            lemma_pow_adds(g, k as nat, idx as nat);
            let a = pow(g, k as nat);
            let b = pow(g, idx as nat);
            lemma_residue_bound(a);
            lemma_residue_small(residue(a));
            lemma_cong_ops(residue(a), a, b, b);
        }
        let out = self.elements[k];
        assert(values(self.elements@)[k as int] == out@);
        out
    }

    /// The order of the group.
    pub fn size(&self) -> (out: usize)
        ensures
            out == self.order(),
    {
        self.size
    }
}

impl Clone for Radix2Group {
    fn clone(&self) -> (out: Radix2Group)
        ensures
            out.order() == self.order(),
    {
        proof {
            use_type_invariant(&*self);
        }
        Radix2Group { size: self.size, elements: copied(&self.elements) }
    }
}

/// The logarithm of a power of two.
proof fn lemma_ceil_log_pow2(k: nat)
    ensures
        ceil_log(pow2(k) as int) == k,
    decreases k,
{
    lemma_pow2_step(0);
    if k > 0 {
        lemma_pow2_step((k - 1) as nat);
        lemma_pow2_pos((k - 1) as nat);
        lemma_ceil_log_pow2((k - 1) as nat);
    }
}

} // verus!
