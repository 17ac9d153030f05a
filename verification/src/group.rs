//! The two source groups of the BN254 pairing.
//!
//! A point is held in affine coordinates. Both groups are cyclic, of the order of
//! the scalar field, so a point is a multiple of the group's standard generator;
//! the view of a point is an integer that stands for that multiple. Sums and
//! multiples of points have the sums and multiples of the views as their views.
use vstd::prelude::*;
use ark_bn254::{Bn254, Fq, Fq2, G1Affine, G1Projective, G2Affine};
use ark_ec::pairing::Pairing;
use ark_ec::{AffineRepr, CurveGroup, VariableBaseMSM};
use ark_ff::{BigInt, PrimeField};
use crate::field::{Fr, cong, lemma_one_nonzero, residue};
use crate::poly::min;
use crate::sums::sum_to;

verus! {

/// The affine coordinates of a point of the first group, each a residue of the
/// base field in four limbs, the least significant first.
#[derive(Clone, Copy)]
pub struct G1Coords {
    pub x: [u64; 4],
    pub y: [u64; 4],
    pub infinity: bool,
}

/// The affine coordinates of a point of the second group, each a pair of
/// residues of the base field in four limbs, the least significant first.
#[derive(Clone, Copy)]
pub struct G2Coords {
    pub x0: [u64; 4],
    pub x1: [u64; 4],
    pub y0: [u64; 4],
    pub y1: [u64; 4],
    pub infinity: bool,
}

/// What the membership checks of `ark_bn254::G1Affine` say of coordinates.
pub uninterp spec fn g1_valid(x: Seq<u64>, y: Seq<u64>, infinity: bool) -> bool;

/// The multiple of the standard generator of the first group that a point is.
pub uninterp spec fn g1_exponent(x: Seq<u64>, y: Seq<u64>, infinity: bool) -> int;

/// What the membership checks of `ark_bn254::G2Affine` say of coordinates.
pub uninterp spec fn g2_valid(
    x0: Seq<u64>,
    x1: Seq<u64>,
    y0: Seq<u64>,
    y1: Seq<u64>,
    infinity: bool,
) -> bool;

/// The multiple of the standard generator of the second group that a point is.
pub uninterp spec fn g2_exponent(
    x0: Seq<u64>,
    x1: Seq<u64>,
    y0: Seq<u64>,
    y1: Seq<u64>,
    infinity: bool,
) -> int;

impl G1Coords {
    /// The coordinates are those of a point of the group.
    pub open spec fn valid(self) -> bool {
        g1_valid(self.x@, self.y@, self.infinity)
    }

    /// The multiple of the generator that the point is.
    pub open spec fn exponent(self) -> int {
        g1_exponent(self.x@, self.y@, self.infinity)
    }
}

impl G2Coords {
    /// The coordinates are those of a point of the group.
    pub open spec fn valid(self) -> bool {
        g2_valid(self.x0@, self.x1@, self.y0@, self.y1@, self.infinity)
    }

    /// The multiple of the generator that the point is.
    pub open spec fn exponent(self) -> int {
        g2_exponent(self.x0@, self.x1@, self.y0@, self.y1@, self.infinity)
    }
}

/// `is_on_curve` and `is_in_correct_subgroup_assuming_on_curve` of
/// `ark_bn254::G1Affine`, on coordinates that are residues of the base field.
#[verifier::external_body]
fn g1_check(c: G1Coords) -> (ok: bool)
    ensures
        ok == g1_valid(c.x@, c.y@, c.infinity),
{
    let x = Fq::from_bigint(BigInt(c.x));
    let y = Fq::from_bigint(BigInt(c.y));
    x.zip(y)
        .map(|(x, y)| G1Affine { x, y, infinity: c.infinity })
        .is_some_and(|p| p.is_on_curve() && p.is_in_correct_subgroup_assuming_on_curve())
}

/// `is_on_curve` and `is_in_correct_subgroup_assuming_on_curve` of
/// `ark_bn254::G2Affine`, on coordinates that are residues of the base field.
#[verifier::external_body]
fn g2_check(c: G2Coords) -> (ok: bool)
    ensures
        ok == g2_valid(c.x0@, c.x1@, c.y0@, c.y1@, c.infinity),
{
    let [x0, x1, y0, y1] = [c.x0, c.x1, c.y0, c.y1].map(|v| Fq::from_bigint(BigInt(v)));
    let x = x0.zip(x1).map(|(a, b)| Fq2::new(a, b));
    let y = y0.zip(y1).map(|(a, b)| Fq2::new(a, b));
    x.zip(y)
        .map(|(x, y)| G2Affine { x, y, infinity: c.infinity })
        .is_some_and(|p| p.is_on_curve() && p.is_in_correct_subgroup_assuming_on_curve())
}

/// `AffineRepr::zero` of `ark_bn254::G1Affine`: the neutral element, which is no
/// multiple of the generator.
#[verifier::external_body]
fn g1_zero() -> (out: G1Coords)
    ensures
        g1_valid(out.x@, out.y@, out.infinity),
        residue(g1_exponent(out.x@, out.y@, out.infinity)) == 0,
{
    let p = G1Affine::zero();
    G1Coords { x: p.x.into_bigint().0, y: p.y.into_bigint().0, infinity: p.infinity }
}

/// `AffineRepr::generator` of `ark_bn254::G1Affine`: the standard generator.
#[verifier::external_body]
fn g1_generator() -> (out: G1Coords)
    ensures
        g1_valid(out.x@, out.y@, out.infinity),
        residue(g1_exponent(out.x@, out.y@, out.infinity)) == 1,
{
    let p = G1Affine::generator();
    G1Coords { x: p.x.into_bigint().0, y: p.y.into_bigint().0, infinity: p.infinity }
}

/// `AffineRepr::generator` of `ark_bn254::G2Affine`: the standard generator.
#[verifier::external_body]
fn g2_generator() -> (out: G2Coords)
    ensures
        g2_valid(out.x0@, out.x1@, out.y0@, out.y1@, out.infinity),
        residue(g2_exponent(out.x0@, out.x1@, out.y0@, out.y1@, out.infinity)) == 1,
{
    let p = G2Affine::generator();
    let [x0, x1, y0, y1] = [p.x.c0, p.x.c1, p.y.c0, p.y.c1].map(|v| v.into_bigint().0);
    G2Coords { x0, x1, y0, y1, infinity: p.infinity }
}

/// Addition of `ark_bn254::G1Affine`: the exponents add up.
#[verifier::external_body]
fn g1_add(a: G1, b: G1) -> (out: G1Coords)
    ensures
        g1_valid(out.x@, out.y@, out.infinity),
        residue(g1_exponent(out.x@, out.y@, out.infinity)) == residue(a@ + b@),
{
    let point = |c: G1Coords| G1Affine {
        x: Fq::from(BigInt(c.x)),
        y: Fq::from(BigInt(c.y)),
        infinity: c.infinity,
    };
    let p = (point(a.coords) + point(b.coords)).into_affine();
    G1Coords { x: p.x.into_bigint().0, y: p.y.into_bigint().0, infinity: p.infinity }
}

/// Subtraction of `ark_bn254::G1Affine`: the exponents are subtracted.
#[verifier::external_body]
fn g1_sub(a: G1, b: G1) -> (out: G1Coords)
    ensures
        g1_valid(out.x@, out.y@, out.infinity),
        residue(g1_exponent(out.x@, out.y@, out.infinity)) == residue(a@ - b@),
{
    let point = |c: G1Coords| G1Affine {
        x: Fq::from(BigInt(c.x)),
        y: Fq::from(BigInt(c.y)),
        infinity: c.infinity,
    };
    let p = (point(a.coords) - point(b.coords)).into_affine();
    G1Coords { x: p.x.into_bigint().0, y: p.y.into_bigint().0, infinity: p.infinity }
}

/// Multiplication of `ark_bn254::G1Affine` by a scalar: the exponent is
/// multiplied by it.
#[verifier::external_body]
fn g1_mul(a: G1, s: Fr) -> (out: G1Coords)
    ensures
        g1_valid(out.x@, out.y@, out.infinity),
        residue(g1_exponent(out.x@, out.y@, out.infinity)) == residue(a@ * s@),
{
    let a = G1Affine {
        x: Fq::from(BigInt(a.coords.x)),
        y: Fq::from(BigInt(a.coords.y)),
        infinity: a.coords.infinity,
    };
    let s = ark_bn254::Fr::from(BigInt(s.to_limbs().words()));
    let p = (a * s).into_affine();
    G1Coords { x: p.x.into_bigint().0, y: p.y.into_bigint().0, infinity: p.infinity }
}

/// `VariableBaseMSM::msm_unchecked` of `ark_bn254::G1Projective`: the sum of the
/// products of the bases with the scalars, over the shorter of the two lengths.
#[verifier::external_body]
fn g1_msm(bases: &Vec<G1>, scalars: &Vec<Fr>) -> (out: G1Coords)
    ensures
        g1_valid(out.x@, out.y@, out.infinity),
        residue(g1_exponent(out.x@, out.y@, out.infinity)) == residue(
            inner_product(points(bases@), crate::field::values(scalars@)),
        ),
{
    let bases = bases.iter().map(|g| {
        let [x, y] = [g.coords.x, g.coords.y].map(|v| Fq::from(BigInt(v)));
        G1Affine { x, y, infinity: g.coords.infinity }
    });
    let scalars = scalars.iter().map(|x| ark_bn254::Fr::from(BigInt(x.to_limbs().words())));
    let s = scalars.collect::<Vec<_>>();
    let b = bases.collect::<Vec<_>>();
    let p = G1Projective::msm_unchecked(&b, &s).into_affine();
    G1Coords { x: p.x.into_bigint().0, y: p.y.into_bigint().0, infinity: p.infinity }
}

/// Multiplication of `ark_bn254::G2Affine` by a scalar: the exponent is
/// multiplied by it.
#[verifier::external_body]
fn g2_mul(a: G2, s: Fr) -> (out: G2Coords)
    ensures
        g2_valid(out.x0@, out.x1@, out.y0@, out.y1@, out.infinity),
        residue(g2_exponent(out.x0@, out.x1@, out.y0@, out.y1@, out.infinity)) == residue(
            a@ * s@,
        ),
{
    let c = a.coords;
    let fields = [[c.x0, c.x1], [c.y0, c.y1]].map(|v| v.map(|w| Fq::from(BigInt(w))));
    let [x, y] = fields.map(|[v, w]| Fq2::new(v, w));
    let s = ark_bn254::Fr::from(BigInt(s.to_limbs().words()));
    let p = (G2Affine { x, y, infinity: c.infinity } * s).into_affine();
    let [x0, x1, y0, y1] = [p.x.c0, p.x.c1, p.y.c0, p.y.c1].map(|v| v.into_bigint().0);
    G2Coords { x0, x1, y0, y1, infinity: p.infinity }
}

/// Subtraction of `ark_bn254::G2Affine`: the exponents are subtracted.
#[verifier::external_body]
fn g2_sub(a: G2, b: G2) -> (out: G2Coords)
    ensures
        g2_valid(out.x0@, out.x1@, out.y0@, out.y1@, out.infinity),
        residue(g2_exponent(out.x0@, out.x1@, out.y0@, out.y1@, out.infinity)) == residue(
            a@ - b@,
        ),
{
    let [a, b] = [a.coords, b.coords].map(|c| {
        let fields = [[c.x0, c.x1], [c.y0, c.y1]].map(|v| v.map(|w| Fq::from(BigInt(w))));
        let [x, y] = fields.map(|[v, w]| Fq2::new(v, w));
        G2Affine { x, y, infinity: c.infinity }
    });
    let p = (a - b).into_affine();
    let [x0, x1, y0, y1] = [p.x.c0, p.x.c1, p.y.c0, p.y.c1].map(|v| v.into_bigint().0);
    G2Coords { x0, x1, y0, y1, infinity: p.infinity }
}

/// `Pairing::multi_pairing` of `ark_bn254::Bn254`, on two lists of pairs: the
/// pairing is bilinear and does not degenerate, so the two products of pairings
/// are equal when the sums of the products of the exponents are.
#[verifier::external_body]
fn multi_pairings_agree(ps: &Vec<G1>, qs: &Vec<G2>, rs: &Vec<G1>, ss: &Vec<G2>) -> (ok: bool)
    requires
        ps.len() == qs.len(),
        rs.len() == ss.len(),
    ensures
        ok == cong(
            inner_product(points(ps@), points2(qs@)),
            inner_product(points(rs@), points2(ss@)),
        ),
{
    let field = |v: [u64; 4]| Fq::from(BigInt(v));
    let first = |p: &G1| G1Affine {
        x: field(p.coords.x), y: field(p.coords.y), infinity: p.coords.infinity,
    };
    let second = |q: &G2| G2Affine {
        x: Fq2::new(field(q.coords.x0), field(q.coords.x1)),
        y: Fq2::new(field(q.coords.y0), field(q.coords.y1)),
        infinity: q.coords.infinity,
    };
    let left = Bn254::multi_pairing(ps.iter().map(first), qs.iter().map(second));
    let right = Bn254::multi_pairing(rs.iter().map(first), ss.iter().map(second));
    left == right
}

/// The sum of the products of two sequences, over the shorter length.
pub open spec fn inner_product(a: Seq<int>, b: Seq<int>) -> int {
    sum_to(min(a.len() as int, b.len() as int), |i: int| a[i] * b[i])
}

/// The views of a sequence of points of the first group.
pub open spec fn points(v: Seq<G1>) -> Seq<int> {
    v.map_values(|x: G1| x@)
}

/// The views of a sequence of points of the second group.
pub open spec fn points2(v: Seq<G2>) -> Seq<int> {
    v.map_values(|x: G2| x@)
}

/// A point of the first group.
#[derive(Clone, Copy)]
pub struct G1 {
    coords: G1Coords,
    lift: Ghost<int>,
}

/// A point of the second group.
#[derive(Clone, Copy)]
pub struct G2 {
    coords: G2Coords,
    lift: Ghost<int>,
}

impl View for G1 {
    type V = int;

    closed spec fn view(&self) -> int {
        self.lift@
    }
}

impl View for G2 {
    type V = int;

    closed spec fn view(&self) -> int {
        self.lift@
    }
}

impl G1 {
    #[verifier::type_invariant]
    spec fn inv(self) -> bool {
        self.coords.valid() && cong(self.coords.exponent(), self.lift@)
    }

    /// The point with the given coordinates, if they are those of one.
    pub fn from_coords(coords: G1Coords) -> (out: Option<G1>)
        ensures
            out is Some <==> coords.valid(),
            out is Some ==> out->0@ == coords.exponent(),
    {
        if g1_check(coords) {
            Some(G1 { coords, lift: Ghost(coords.exponent()) })
        } else {
            None
        }
    }

    /// The coordinates of the point.
    pub fn to_coords(&self) -> (out: G1Coords)
        ensures
            out.valid(),
            cong(out.exponent(), self@),
    {
        proof {
            use_type_invariant(*self);
        }
        self.coords
    }

    /// The neutral element.
    pub fn zero() -> (out: G1)
        ensures
            out@ == 0,
    {
        proof {
            lemma_one_nonzero();
        }
        G1 { coords: g1_zero(), lift: Ghost(0int) }
    }

    /// The standard generator.
    pub fn generator() -> (out: G1)
        ensures
            out@ == 1,
    {
        proof {
            lemma_one_nonzero();
        }
        G1 { coords: g1_generator(), lift: Ghost(1int) }
    }

    /// The sum of two points.
    pub fn plus(self, rhs: G1) -> (out: G1)
        ensures
            out@ == self@ + rhs@,
    {
        G1 { coords: g1_add(self, rhs), lift: Ghost(self@ + rhs@) }
    }

    /// The difference of two points.
    pub fn minus(self, rhs: G1) -> (out: G1)
        ensures
            out@ == self@ - rhs@,
    {
        G1 { coords: g1_sub(self, rhs), lift: Ghost(self@ - rhs@) }
    }

    /// A multiple of a point.
    pub fn times(self, s: Fr) -> (out: G1)
        ensures
            out@ == self@ * s@,
    {
        G1 { coords: g1_mul(self, s), lift: Ghost(self@ * s@) }
    }

    /// The sum of the products of bases and scalars, over the shorter length.
    pub fn msm(bases: &Vec<G1>, scalars: &Vec<Fr>) -> (out: G1)
        ensures
            out@ == inner_product(points(bases@), crate::field::values(scalars@)),
    {
        G1 {
            coords: g1_msm(bases, scalars),
            lift: Ghost(inner_product(points(bases@), crate::field::values(scalars@))),
        }
    }
}

impl G2 {
    #[verifier::type_invariant]
    spec fn inv(self) -> bool {
        self.coords.valid() && cong(self.coords.exponent(), self.lift@)
    }

    /// The point with the given coordinates, if they are those of one.
    pub fn from_coords(coords: G2Coords) -> (out: Option<G2>)
        ensures
            out is Some <==> coords.valid(),
            out is Some ==> out->0@ == coords.exponent(),
    {
        if g2_check(coords) {
            Some(G2 { coords, lift: Ghost(coords.exponent()) })
        } else {
            None
        }
    }

    /// The coordinates of the point.
    pub fn to_coords(&self) -> (out: G2Coords)
        ensures
            out.valid(),
            cong(out.exponent(), self@),
    {
        proof {
            use_type_invariant(*self);
        }
        self.coords
    }

    /// The standard generator.
    pub fn generator() -> (out: G2)
        ensures
            out@ == 1,
    {
        proof {
            lemma_one_nonzero();
        }
        G2 { coords: g2_generator(), lift: Ghost(1int) }
    }

    /// The difference of two points.
    pub fn minus(self, rhs: G2) -> (out: G2)
        ensures
            out@ == self@ - rhs@,
    {
        G2 { coords: g2_sub(self, rhs), lift: Ghost(self@ - rhs@) }
    }

    /// A multiple of a point.
    pub fn times(self, s: Fr) -> (out: G2)
        ensures
            out@ == self@ * s@,
    {
        G2 { coords: g2_mul(self, s), lift: Ghost(self@ * s@) }
    }
}

/// The product of the pairings of `ps` with `qs` equals that of `rs` with `ss`.
pub fn pairings_agree(ps: &Vec<G1>, qs: &Vec<G2>, rs: &Vec<G1>, ss: &Vec<G2>) -> (ok: bool)
    requires
        ps.len() == qs.len(),
        rs.len() == ss.len(),
    ensures
        ok == cong(
            inner_product(points(ps@), points2(qs@)),
            inner_product(points(rs@), points2(ss@)),
        ),
{
    multi_pairings_agree(ps, qs, rs, ss)
}

} // verus!
