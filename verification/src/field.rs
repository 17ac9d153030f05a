//! The scalar field of the BN254 curve.
//!
//! A field element is held as its canonical residue, four 64-bit limbs in
//! little-endian order. Its view is an integer that the residue reduces: sums,
//! differences and products of elements have the sums, differences and products
//! of the views as their views, so that contracts are written in plain integer
//! arithmetic. Two elements are equal when their views are congruent modulo the
//! order of the field.
use vstd::prelude::*;
use vstd::arithmetic::div_mod::*;
use vstd::arithmetic::mul::*;
use vstd::arithmetic::power::*;
use vstd::std_specs::cmp::PartialEqSpecImpl;
use vstd::std_specs::ops::{AddSpecImpl, MulSpecImpl, SubSpecImpl};
use core::ops::{Add, Mul, Sub};
use ark_ff::{Field, PrimeField};

verus! {

/// The order of the scalar field.
#[verifier::opaque]
pub open spec fn modulus() -> int {
    0x30644e72e131a029b85045b68181585d2833e84879b9709143e1f593f0000001int
}

/// The representative of `x` between zero and the order of the field.
pub open spec fn residue(x: int) -> int {
    x % modulus()
}

/// `a` and `b` stand for the same field element.
pub open spec fn cong(a: int, b: int) -> bool {
    residue(a) == residue(b)
}

/// `y` is the canonical multiplicative inverse of `x`.
pub open spec fn is_inverse(x: int, y: int) -> bool {
    0 <= y < modulus() && residue(x * y) == 1
}

/// `x` has a multiplicative inverse.
pub open spec fn invertible(x: int) -> bool {
    exists|y: int| is_inverse(x, y)
}

/// The multiplicative inverse of `x`, where it has one.
pub open spec fn inverse_of(x: int) -> int {
    choose|y: int| is_inverse(x, y)
}

/// The order of the field lies between 2^128 and 2^254.
pub proof fn lemma_modulus()
    ensures
        modulus() > 0x1_0000_0000_0000_0000_0000_0000_0000_0000int,
        modulus() < 0x4000_0000_0000_0000_0000_0000_0000_0000_0000_0000_0000_0000_0000_0000_0000_0000int,
{
    reveal(modulus);
}

pub proof fn lemma_residue_bound(x: int)
    ensures
        0 <= residue(x) < modulus(),
        residue(residue(x)) == residue(x),
{
    lemma_modulus();
    lemma_mod_bound(x, modulus());
    lemma_small_mod(residue(x) as nat, modulus() as nat);
}

/// Congruence is kept by sums, differences, products and negation.
pub proof fn lemma_cong_ops(a: int, b: int, c: int, d: int)
    requires
        cong(a, b),
        cong(c, d),
    ensures
        cong(a + c, b + d),
        cong(a - c, b - d),
        cong(a * c, b * d),
        cong(-a, -b),
{
    lemma_modulus();
    let m = modulus();
    lemma_add_mod_noop(a, c, m);
    lemma_add_mod_noop(b, d, m);
    lemma_sub_mod_noop(a, c, m);
    lemma_sub_mod_noop(b, d, m);
    lemma_mul_mod_noop(a, c, m);
    lemma_mul_mod_noop(b, d, m);
    lemma_sub_mod_noop(0, a, m);
    lemma_sub_mod_noop(0, b, m);
}

/// An integer and its residue stand for the same field element.
pub proof fn lemma_cong_residue(a: int)
    ensures
        cong(residue(a), a),
{
    lemma_residue_bound(a);
}

/// Integers between zero and the order of the field are their own residues.
pub proof fn lemma_residue_small(a: int)
    requires
        0 <= a < modulus(),
    ensures
        residue(a) == a,
{
    lemma_small_mod(a as nat, modulus() as nat);
}

/// One is not zero in the field.
pub proof fn lemma_one_nonzero()
    ensures
        residue(0) == 0,
        residue(1) == 1,
{
    lemma_modulus();
    lemma_residue_small(0);
    lemma_residue_small(1);
}

/// An inverse is unique, and depends on the residue alone.
pub proof fn lemma_inverse_unique(a: int, b: int, x: int, y: int)
    requires
        cong(a, b),
        residue(a * x) == 1,
        residue(b * y) == 1,
    ensures
        cong(x, y),
        0 <= x < modulus() && 0 <= y < modulus() ==> x == y,
{
    lemma_one_nonzero();
    lemma_modulus();
    // x = x * 1 = x * (b * y) = (a * x) * y = y
    lemma_cong_ops(x, x, 1, b * y);
    lemma_cong_ops(a, b, x * y, x * y);
    lemma_cong_ops(a * x, 1, y, y);
    assert(x * (b * y) == b * (x * y)) by (nonlinear_arith);
    assert((a * x) * y == a * (x * y)) by (nonlinear_arith);
    assert(x * 1 == x && 1 * y == y);
    if 0 <= x < modulus() && 0 <= y < modulus() {
        lemma_residue_small(x);
        lemma_residue_small(y);
    }
}

/// The inverse is one.
pub proof fn lemma_inverse_of(x: int)
    requires
        invertible(x),
    ensures
        is_inverse(x, inverse_of(x)),
        cong(x * inverse_of(x), 1),
        residue(x) != 0,
{
    let y = inverse_of(x);
    assert(is_inverse(x, y));
    lemma_one_nonzero();
    if residue(x) == 0 {
        lemma_cong_ops(x, 0, y, y);
    }
}

/// Being invertible, and the inverse, depend on the residue alone.
pub proof fn lemma_inverse_cong(a: int, b: int)
    requires
        cong(a, b),
        invertible(a),
    ensures
        invertible(b),
        inverse_of(a) == inverse_of(b),
{
    lemma_inverse_of(a);
    let x = inverse_of(a);
    lemma_cong_ops(a, b, x, x);
    assert(is_inverse(b, x));
    lemma_inverse_of(b);
    lemma_inverse_unique(a, b, x, inverse_of(b));
}

/// Whatever multiplies `x` to one is congruent to the inverse of `x`.
pub proof fn lemma_inverse_from(x: int, y: int)
    requires
        cong(x * y, 1),
    ensures
        invertible(x),
        cong(inverse_of(x), y),
{
    lemma_one_nonzero();
    lemma_residue_bound(y);
    lemma_cong_residue(y);
    lemma_cong_ops(x, x, residue(y), y);
    assert(is_inverse(x, residue(y)));
    lemma_inverse_of(x);
    lemma_inverse_unique(x, x, inverse_of(x), y);
}

/// A product of invertible elements is invertible.
pub proof fn lemma_invertible_mul(a: int, b: int)
    requires
        invertible(a),
        invertible(b),
    ensures
        invertible(a * b),
        cong(inverse_of(a * b), inverse_of(a) * inverse_of(b)),
{
    lemma_inverse_of(a);
    lemma_inverse_of(b);
    let x = inverse_of(a);
    let y = inverse_of(b);
    lemma_cong_ops(a * x, 1, b * y, 1);
    assert((a * x) * (b * y) == (a * b) * (x * y)) by (nonlinear_arith);
    assert(1 * 1 == 1);
    lemma_inverse_from(a * b, x * y);
}

/// One is its own inverse.
pub proof fn lemma_invertible_one()
    ensures
        invertible(1),
        inverse_of(1) == 1,
{
    lemma_one_nonzero();
    lemma_modulus();
    assert(1 * 1 == 1int);
    assert(is_inverse(1, 1));
    lemma_inverse_of(1);
    lemma_inverse_unique(1, 1, 1, inverse_of(1));
}

/// An invertible factor can be cancelled.
pub proof fn lemma_cong_cancel(a: int, b: int, x: int)
    requires
        invertible(x),
        cong(a * x, b * x),
    ensures
        cong(a, b),
{
    lemma_inverse_of(x);
    let y = inverse_of(x);
    lemma_cong_ops(a * x, b * x, y, y);
    lemma_cong_ops(a, a, x * y, 1);
    lemma_cong_ops(b, b, x * y, 1);
    assert((a * x) * y == a * (x * y)) by (nonlinear_arith);
    assert((b * x) * y == b * (x * y)) by (nonlinear_arith);
    assert(a * 1 == a && b * 1 == b);
}

/// A 256-bit number in four 64-bit limbs, the least significant first.
#[derive(Clone, Copy, Debug, PartialEq, Eq, Structural)]
pub struct Limbs {
    pub l0: u64,
    pub l1: u64,
    pub l2: u64,
    pub l3: u64,
}

impl Limbs {
    /// The number that the limbs hold.
    pub open spec fn value(self) -> int {
        self.l0 + 0x1_0000_0000_0000_0000int * self.l1
            + 0x1_0000_0000_0000_0000_0000_0000_0000_0000int * self.l2
            + 0x1_0000_0000_0000_0000_0000_0000_0000_0000_0000_0000_0000_0000int * self.l3
    }
}

impl Limbs {
    /// The limbs, the least significant first.
    pub fn words(self) -> (out: [u64; 4])
        ensures
            out@ == seq![self.l0, self.l1, self.l2, self.l3],
    {
        [self.l0, self.l1, self.l2, self.l3]
    }
}

/// Limbs are determined by the number that they hold.
pub proof fn lemma_limbs_injective(a: Limbs, b: Limbs)
    requires
        a.value() == b.value(),
    ensures
        a == b,
{
}

/// Addition of `ark_bn254::Fr`: the sum modulo the order of the field.
#[verifier::external_body]
fn limbs_add(a: Limbs, b: Limbs) -> (c: Limbs)
    requires
        a.value() < modulus(),
        b.value() < modulus(),
    ensures
        c.value() == (a.value() + b.value()) % modulus(),
{
    let x = ark_bn254::Fr::from_bigint(ark_ff::BigInt(a.words())).unwrap();
    let y = ark_bn254::Fr::from_bigint(ark_ff::BigInt(b.words())).unwrap();
    let z = (x + y).into_bigint().0;
    Limbs { l0: z[0], l1: z[1], l2: z[2], l3: z[3] }
}

/// Subtraction of `ark_bn254::Fr`: the difference modulo the order of the field.
#[verifier::external_body]
fn limbs_sub(a: Limbs, b: Limbs) -> (c: Limbs)
    requires
        a.value() < modulus(),
        b.value() < modulus(),
    ensures
        c.value() == (a.value() - b.value()) % modulus(),
{
    let x = ark_bn254::Fr::from_bigint(ark_ff::BigInt(a.words())).unwrap();
    let y = ark_bn254::Fr::from_bigint(ark_ff::BigInt(b.words())).unwrap();
    let z = (x - y).into_bigint().0;
    Limbs { l0: z[0], l1: z[1], l2: z[2], l3: z[3] }
}

/// Multiplication of `ark_bn254::Fr`: the product modulo the order of the field.
#[verifier::external_body]
fn limbs_mul(a: Limbs, b: Limbs) -> (c: Limbs)
    requires
        a.value() < modulus(),
        b.value() < modulus(),
    ensures
        c.value() == (a.value() * b.value()) % modulus(),
{
    let x = ark_bn254::Fr::from_bigint(ark_ff::BigInt(a.words())).unwrap();
    let y = ark_bn254::Fr::from_bigint(ark_ff::BigInt(b.words())).unwrap();
    let z = (x * y).into_bigint().0;
    Limbs { l0: z[0], l1: z[1], l2: z[2], l3: z[3] }
}

/// `Field::inverse` of `ark_bn254::Fr`: nothing for zero, and otherwise the
/// element whose product with the argument is one.
#[verifier::external_body]
fn limbs_inverse(a: Limbs) -> (c: Option<Limbs>)
    requires
        a.value() < modulus(),
    ensures
        c is None <==> a.value() == 0,
        c is Some ==> c->0.value() < modulus() && (a.value() * c->0.value()) % modulus() == 1,
{
    let x = ark_bn254::Fr::from_bigint(ark_ff::BigInt(a.words())).unwrap();
    let z = x.inverse()?.into_bigint().0;
    Some(Limbs { l0: z[0], l1: z[1], l2: z[2], l3: z[3] })
}

/// `Field::pow` of `ark_bn254::Fr`, with an exponent of one word: the power
/// modulo the order of the field.
#[verifier::external_body]
fn limbs_pow(a: Limbs, e: u64) -> (c: Limbs)
    requires
        a.value() < modulus(),
    ensures
        c.value() == pow(a.value(), e as nat) % modulus(),
{
    let x = ark_bn254::Fr::from_bigint(ark_ff::BigInt(a.words())).unwrap();
    let z = x.pow([e]).into_bigint().0;
    Limbs { l0: z[0], l1: z[1], l2: z[2], l3: z[3] }
}

/// `From<i64>` of `ark_bn254::Fr`: the residue of a signed word.
#[verifier::external_body]
fn limbs_from_i64(x: i64) -> (c: Limbs)
    ensures
        c.value() == (x as int) % modulus(),
{
    let z = ark_bn254::Fr::from(x).into_bigint().0;
    Limbs { l0: z[0], l1: z[1], l2: z[2], l3: z[3] }
}

/// `PrimeField::from_bigint` of `ark_bn254::Fr`: succeeds on the numbers below
/// the order of the field.
#[verifier::external_body]
fn limbs_canonical(a: Limbs) -> (ok: bool)
    ensures
        ok == (a.value() < modulus()),
{
    ark_bn254::Fr::from_bigint(ark_ff::BigInt(a.words())).is_some()
}

/// An element of the scalar field.
#[derive(Clone, Copy)]
pub struct Fr {
    limbs: Limbs,
    lift: Ghost<int>,
}

impl View for Fr {
    type V = int;

    closed spec fn view(&self) -> int {
        self.lift@
    }
}

impl Fr {
    #[verifier::type_invariant]
    spec fn inv(self) -> bool {
        self.limbs.value() == residue(self.lift@)
    }

    /// Zero.
    pub fn zero() -> (out: Fr)
        ensures
            out@ == 0,
    {
        proof {
            lemma_one_nonzero();
        }
        Fr { limbs: Limbs { l0: 0, l1: 0, l2: 0, l3: 0 }, lift: Ghost(0int) }
    }

    /// One.
    pub fn one() -> (out: Fr)
        ensures
            out@ == 1,
    {
        proof {
            lemma_one_nonzero();
        }
        Fr { limbs: Limbs { l0: 1, l1: 0, l2: 0, l3: 0 }, lift: Ghost(1int) }
    }

    /// The element that a signed word stands for.
    pub fn from_i64(x: i64) -> (out: Fr)
        ensures
            out@ == x,
    {
        Fr { limbs: limbs_from_i64(x), lift: Ghost(x as int) }
    }

    /// The element that an unsigned word stands for.
    pub fn from_u64(x: u64) -> (out: Fr)
        ensures
            out@ == x,
    {
        proof {
            lemma_modulus();
            lemma_residue_small(x as int);
        }
        Fr { limbs: Limbs { l0: x, l1: 0, l2: 0, l3: 0 }, lift: Ghost(x as int) }
    }

    /// The element that an index stands for.
    pub fn from_usize(x: usize) -> (out: Fr)
        ensures
            out@ == x,
    {
        Fr::from_u64(x as u64)
    }

    /// The element whose canonical residue is given, if it is below the order
    /// of the field.
    pub fn from_limbs(limbs: Limbs) -> (out: Option<Fr>)
        ensures
            out is Some <==> limbs.value() < modulus(),
            out is Some ==> out->0@ == limbs.value(),
    {
        if limbs_canonical(limbs) {
            proof {
                lemma_residue_small(limbs.value());
            }
            Some(Fr { limbs, lift: Ghost(limbs.value()) })
        } else {
            None
        }
    }

    /// The canonical residue.
    pub fn to_limbs(&self) -> (out: Limbs)
        ensures
            out.value() == residue(self@),
    {
        proof {
            use_type_invariant(*self);
        }
        self.limbs
    }

    /// The same element, viewed as its canonical residue.
    pub fn canonical(&self) -> (out: Fr)
        ensures
            out@ == residue(self@),
    {
        proof {
            use_type_invariant(*self);
            lemma_residue_bound(self@);
        }
        Fr { limbs: self.limbs, lift: Ghost(residue(self@)) }
    }

    /// The multiplicative inverse, which every element but zero has.
    pub fn inverse(&self) -> (out: Option<Fr>)
        ensures
            out is Some <==> residue(self@) != 0,
            out is Some <==> invertible(self@),
            out is Some ==> out->0@ == inverse_of(self@),
    {
        proof {
            use_type_invariant(*self);
            lemma_residue_bound(self@);
            if invertible(self@) {
                lemma_inverse_of(self@);
            }
        }
        match limbs_inverse(self.limbs) {
            None => None,
            Some(limbs) => {
                proof {
                    lemma_cong_residue(self@);
                    lemma_cong_ops(residue(self@), self@, limbs.value(), limbs.value());
                    lemma_one_nonzero();
                    assert(is_inverse(self@, limbs.value()));
                    lemma_inverse_of(self@);
                    lemma_inverse_unique(self@, self@, limbs.value(), inverse_of(self@));
                    lemma_residue_small(limbs.value());
                }
                Some(Fr { limbs, lift: Ghost(limbs.value()) })
            },
        }
    }

    /// The power with the given exponent.
    pub fn pow(&self, e: u64) -> (out: Fr)
        ensures
            out@ == pow(self@, e as nat),
    {
        proof {
            use_type_invariant(*self);
            lemma_modulus();
            lemma_residue_bound(self@);
            lemma_pow_mod_noop(self@, e as nat, modulus());
        }
        Fr { limbs: limbs_pow(self.limbs, e), lift: Ghost(pow(self@, e as nat)) }
    }
}

impl AddSpecImpl<Fr> for Fr {
    open spec fn obeys_add_spec() -> bool {
        false
    }

    open spec fn add_req(self, rhs: Fr) -> bool {
        true
    }

    open spec fn add_spec(self, rhs: Fr) -> Fr {
        self
    }
}

impl Add<Fr> for Fr {
    type Output = Fr;

    fn add(self, rhs: Fr) -> (out: Fr)
        ensures
            out@ == self@ + rhs@,
    {
        proof {
            use_type_invariant(self);
            use_type_invariant(rhs);
            lemma_modulus();
            lemma_residue_bound(self@);
            lemma_residue_bound(rhs@);
            lemma_add_mod_noop(self@, rhs@, modulus());
        }
        Fr { limbs: limbs_add(self.limbs, rhs.limbs), lift: Ghost(self@ + rhs@) }
    }
}

impl SubSpecImpl<Fr> for Fr {
    open spec fn obeys_sub_spec() -> bool {
        false
    }

    open spec fn sub_req(self, rhs: Fr) -> bool {
        true
    }

    open spec fn sub_spec(self, rhs: Fr) -> Fr {
        self
    }
}

impl Sub<Fr> for Fr {
    type Output = Fr;

    fn sub(self, rhs: Fr) -> (out: Fr)
        ensures
            out@ == self@ - rhs@,
    {
        proof {
            use_type_invariant(self);
            use_type_invariant(rhs);
            lemma_modulus();
            lemma_residue_bound(self@);
            lemma_residue_bound(rhs@);
            lemma_sub_mod_noop(self@, rhs@, modulus());
        }
        Fr { limbs: limbs_sub(self.limbs, rhs.limbs), lift: Ghost(self@ - rhs@) }
    }
}

impl MulSpecImpl<Fr> for Fr {
    open spec fn obeys_mul_spec() -> bool {
        false
    }

    open spec fn mul_req(self, rhs: Fr) -> bool {
        true
    }

    open spec fn mul_spec(self, rhs: Fr) -> Fr {
        self
    }
}

impl Mul<Fr> for Fr {
    type Output = Fr;

    fn mul(self, rhs: Fr) -> (out: Fr)
        ensures
            out@ == self@ * rhs@,
    {
        proof {
            use_type_invariant(self);
            use_type_invariant(rhs);
            lemma_modulus();
            lemma_residue_bound(self@);
            lemma_residue_bound(rhs@);
            lemma_mul_mod_noop(self@, rhs@, modulus());
        }
        Fr { limbs: limbs_mul(self.limbs, rhs.limbs), lift: Ghost(self@ * rhs@) }
    }
}

impl PartialEqSpecImpl for Fr {
    open spec fn obeys_eq_spec() -> bool {
        true
    }

    open spec fn eq_spec(&self, other: &Fr) -> bool {
        cong(self@, other@)
    }
}

impl PartialEq for Fr {
    fn eq(&self, other: &Fr) -> (same: bool) {
        proof {
            use_type_invariant(*self);
            use_type_invariant(*other);
            if self.limbs.value() == other.limbs.value() {
                lemma_limbs_injective(self.limbs, other.limbs);
            }
        }
        self.limbs == other.limbs
    }
}

impl Eq for Fr {

}

/// The views of a sequence of elements.
pub open spec fn values(v: Seq<Fr>) -> Seq<int> {
    v.map_values(|x: Fr| x@)
}

/// The views of a sequence of vectors of elements.
pub open spec fn tables(v: Seq<Vec<Fr>>) -> Seq<Seq<int>> {
    v.map_values(|x: Vec<Fr>| values(x@))
}

/// A copy of a vector of elements.
pub fn copied(v: &Vec<Fr>) -> (out: Vec<Fr>)
    ensures
        out@ == v@,
{
    let mut out: Vec<Fr> = Vec::new();
    for i in 0..v.len()
        invariant
            out@ == v@.take(i as int),
    {
        out.push(v[i]);
        assert(v@.take(i + 1) == v@.take(i as int).push(v[i as int]));
    }
    assert(v@.take(v.len() as int) == v@);
    out
}

/// A vector of `n` copies of an element.
pub fn filled(x: Fr, n: usize) -> (out: Vec<Fr>)
    ensures
        out.len() == n,
        forall|i: int| 0 <= i < n ==> out[i] == x,
{
    let mut out: Vec<Fr> = Vec::new();
    for i in 0..n
        invariant
            out.len() == i,
            forall|j: int| 0 <= j < i ==> out[j] == x,
    {
        out.push(x);
    }
    out
}

} // verus!
