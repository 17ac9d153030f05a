//! Multilinear polynomials, given by their values on the hypercube.
//!
//! The value with index `i` belongs to the vertex whose coordinates are the bits
//! of `i`, the least significant bit first. Values that are left out are zero.
use vstd::prelude::*;
use vstd::arithmetic::div_mod::*;
use vstd::arithmetic::power2::*;
use crate::field::{Fr, copied, values};
use crate::sums::{
    lemma_pow2_mono, lemma_pow2_step, lemma_product_eq, lemma_sum_eq, lemma_sum_extend,
    lemma_sum_pairs, lemma_sum_scale, lemma_sum_single, lemma_sum_split, lemma_sum_zero, product_to,
    sum_to, two_pow,
};

verus! {

/// The entry with index `i`, where entries past the end are zero.
pub open spec fn at(f: Seq<int>, i: int) -> int {
    if 0 <= i < f.len() {
        f[i]
    } else {
        0
    }
}

/// The product over `j` of `b[j]` where bit `j` of `i` is set and of `a[j]`
/// where it is not; zero where `i` has a bit past the end.
pub open spec fn prod_at(a: Seq<int>, b: Seq<int>, i: int) -> int
    decreases a.len(),
{
    if a.len() == 0 {
        if i == 0 {
            1
        } else {
            0
        }
    } else {
        (if i % 2 == 1 {
            b[0]
        } else {
            a[0]
        }) * prod_at(a.drop_first(), b.drop_first(), i / 2)
    }
}

/// One minus each entry.
pub open spec fn complement(p: Seq<int>) -> Seq<int> {
    p.map_values(|x: int| 1 - x)
}

/// The value at `p` of the multilinear polynomial that is one at vertex `i` and
/// zero at the others.
pub open spec fn eq_at(p: Seq<int>, i: int) -> int {
    prod_at(complement(p), p, i)
}

/// The value at `p` of the multilinear polynomial with the given values.
pub open spec fn mle(f: Seq<int>, p: Seq<int>) -> int {
    sum_to(f.len() as int, |i: int| f[i] * eq_at(p, i))
}

/// The values that are left when the first variable is set to `r`.
pub open spec fn fold(f: Seq<int>, r: int) -> Seq<int> {
    Seq::new(
        ((f.len() + 1) / 2) as nat,
        |i: int| at(f, 2 * i) + (at(f, 2 * i + 1) - at(f, 2 * i)) * r,
    )
}

/// The values that are left when the first variables are set to `p`.
pub open spec fn fold_all(f: Seq<int>, p: Seq<int>) -> Seq<int>
    decreases p.len(),
{
    if p.len() == 0 {
        f
    } else {
        fold_all(fold(f, p[0]), p.drop_first())
    }
}

/// The product over the coordinates of `r * p + (1 - r) * (1 - p)`.
pub open spec fn eq_points(r: Seq<int>, p: Seq<int>, n: int) -> int {
    product_to(n, |i: int| r[i] * p[i] + (1 - r[i]) * (1 - p[i]))
}

/// The sum over the vertices below `n` of the product of the two `eq_at`.
pub open spec fn eq_prefix(r: Seq<int>, p: Seq<int>, n: int) -> int {
    sum_to(n, |i: int| eq_at(r, i) * eq_at(p, i))
}

/// The value at `p` of the polynomial that is one at the vertices below `n`.
pub open spec fn ones_prefix(p: Seq<int>, n: int) -> int {
    sum_to(n, |i: int| eq_at(p, i))
}

/// The smaller of two numbers.
pub open spec fn min(a: int, b: int) -> int {
    if a <= b {
        a
    } else {
        b
    }
}

/// `prod_at` vanishes past the vertices of the cube.
pub proof fn lemma_prod_at_outside(a: Seq<int>, b: Seq<int>, i: int)
    requires
        i >= pow2(a.len()),
    ensures
        prod_at(a, b, i) == 0,
    decreases a.len(),
{
    lemma_pow2_step(0);
    if a.len() > 0 {
        lemma_pow2_step((a.len() - 1) as nat);
        lemma_prod_at_outside(a.drop_first(), b.drop_first(), i / 2);
    }
}

/// `prod_at` with the last coordinate split off.
pub proof fn lemma_prod_at_last(a: Seq<int>, b: Seq<int>, i: int)
    requires
        a.len() > 0,
        a.len() == b.len(),
        0 <= i < pow2(a.len()),
    ensures
        prod_at(a, b, i) == prod_at(
            a.drop_last(),
            b.drop_last(),
            i % (pow2((a.len() - 1) as nat) as int),
        ) * (if i >= pow2((a.len() - 1) as nat) {
            b.last()
        } else {
            a.last()
        }),
    decreases a.len(),
{
    let n = (a.len() - 1) as nat;
    let h = pow2(n) as int;
    lemma_pow2_step(0);
    lemma_pow2_step(n);
    if n == 0 {
        assert(a.drop_first().len() == 0);
        reveal_with_fuel(prod_at, 2);
        assert(i % 1 == 0);
        assert(i == 0 || i == 1);
        let c = if i % 2 == 1 { b[0] } else { a[0] };
        assert(c * 1 == c && 1 * c == c);
    } else {
        let m = (n - 1) as nat;
        let q = pow2(m) as int;
        lemma_pow2_step(m);
        let a1 = a.drop_first();
        let b1 = b.drop_first();
        lemma_prod_at_last(a1, b1, i / 2);
        assert(a1.drop_last() =~= a.drop_last().drop_first());
        assert(b1.drop_last() =~= b.drop_last().drop_first());
        assert(a1.last() == a.last() && b1.last() == b.last());
        let lo = i % h;
        let c = if i % 2 == 1 { b[0] } else { a[0] };
        let d = if i >= h { b.last() } else { a.last() };
        assert(lo == if i >= h { i - h } else { i }) by {
            if i >= h {
                lemma_fundamental_div_mod_converse(i, h, 1, i - h);
            } else {
                lemma_small_mod(i as nat, h as nat);
            }
        }
        assert((i / 2) % q == if i / 2 >= q { i / 2 - q } else { i / 2 }) by {
            if i / 2 >= q {
                lemma_fundamental_div_mod_converse(i / 2, q, 1, i / 2 - q);
            } else {
                lemma_small_mod((i / 2) as nat, q as nat);
            }
        }
        assert(lo % 2 == i % 2);
        assert(lo / 2 == (i / 2) % q);
        let x = prod_at(a1.drop_last(), b1.drop_last(), lo / 2);
        assert(c * (x * d) == (c * x) * d) by (nonlinear_arith);
        assert(a.drop_last().len() > 0);
    }
}

/// Over the whole cube, the sum of `prod_at` is the product of the sums of the
/// coordinates.
pub proof fn lemma_prod_at_total(a: Seq<int>, b: Seq<int>)
    requires
        a.len() == b.len(),
    ensures
        sum_to(pow2(a.len()) as int, |i: int| prod_at(a, b, i)) == product_to(
            a.len() as int,
            |i: int| a[i] + b[i],
        ),
    decreases a.len(),
{
    let f = |i: int| prod_at(a, b, i);
    let g = |i: int| a[i] + b[i];
    lemma_pow2_step(0);
    if a.len() == 0 {
        reveal_with_fuel(sum_to, 2);
    } else {
        let n = (a.len() - 1) as nat;
        let h = pow2(n) as int;
        lemma_pow2_step(n);
        let a0 = a.drop_last();
        let b0 = b.drop_last();
        let f0 = |i: int| prod_at(a0, b0, i);
        lemma_prod_at_total(a0, b0);
        lemma_sum_split(h, h, f);
        assert forall|i: int| 0 <= i < h implies #[trigger] f(i) == (|j: int| a.last() * f0(j))(
            i,
        ) by {
            lemma_prod_at_last(a, b, i);
            lemma_small_mod(i as nat, h as nat);
            assert(f0(i) * a.last() == a.last() * f0(i)) by (nonlinear_arith);
        }
        lemma_sum_eq(h, f, |j: int| a.last() * f0(j));
        lemma_sum_scale(h, a.last(), f0);
        let f1 = |i: int| f(h + i);
        assert forall|i: int| 0 <= i < h implies #[trigger] f1(i) == (|j: int| b.last() * f0(j))(
            i,
        ) by {
            lemma_prod_at_last(a, b, h + i);
            lemma_fundamental_div_mod_converse(h + i, h, 1, i);
            assert(f0(i) * b.last() == b.last() * f0(i)) by (nonlinear_arith);
        }
        lemma_sum_eq(h, f1, |j: int| b.last() * f0(j));
        lemma_sum_scale(h, b.last(), f0);
        lemma_product_eq(n as int, g, |i: int| a0[i] + b0[i]);
        let s = product_to(n as int, g);
        assert(a.last() * s + b.last() * s == s * (a.last() + b.last())) by (nonlinear_arith);
    }
}

/// The sum of `prod_at` over the vertices below `n`, one coordinate at a time
/// from the last: this step takes off the last one.
proof fn lemma_prod_prefix_step(a: Seq<int>, b: Seq<int>, n: int)
    requires
        a.len() > 0,
        a.len() == b.len(),
        0 <= n < pow2(a.len()),
    ensures
        ({
            let h = pow2((a.len() - 1) as nat) as int;
            let low = |k: int| sum_to(k, |i: int| prod_at(a.drop_last(), b.drop_last(), i));
            sum_to(n, |i: int| prod_at(a, b, i)) == if n >= h {
                a.last() * low(h) + b.last() * low(n - h)
            } else {
                a.last() * low(n)
            }
        }),
{
    let h = pow2((a.len() - 1) as nat) as int;
    lemma_pow2_step((a.len() - 1) as nat);
    let f = |i: int| prod_at(a, b, i);
    let f0 = |i: int| prod_at(a.drop_last(), b.drop_last(), i);
    let k = min(n, h);
    assert forall|i: int| 0 <= i < k implies #[trigger] f(i) == (|j: int| a.last() * f0(j))(i) by {
        lemma_prod_at_last(a, b, i);
        lemma_small_mod(i as nat, h as nat);
        assert(f0(i) * a.last() == a.last() * f0(i)) by (nonlinear_arith);
    }
    lemma_sum_eq(k, f, |j: int| a.last() * f0(j));
    lemma_sum_scale(k, a.last(), f0);
    if n >= h {
        lemma_sum_split(h, n - h, f);
        let f1 = |i: int| f(h + i);
        assert forall|i: int| 0 <= i < n - h implies #[trigger] f1(i) == (|j: int|
            b.last() * f0(j))(i) by {
            lemma_prod_at_last(a, b, h + i);
            lemma_fundamental_div_mod_converse(h + i, h, 1, i);
            assert(f0(i) * b.last() == b.last() * f0(i)) by (nonlinear_arith);
        }
        lemma_sum_eq(n - h, f1, |j: int| b.last() * f0(j));
        lemma_sum_scale(n - h, b.last(), f0);
    }
}

/// Setting the first variable keeps the value of the polynomial.
pub proof fn lemma_mle_fold(f: Seq<int>, p: Seq<int>)
    requires
        p.len() > 0,
    ensures
        mle(f, p) == mle(fold(f, p[0]), p.drop_first()),
{
    let q = p.drop_first();
    let m = ((f.len() + 1) / 2) as int;
    let r = p[0];
    let g = |i: int| at(f, i) * eq_at(p, i);
    let folded = fold(f, r);
    lemma_sum_eq(f.len() as int, |i: int| f[i] * eq_at(p, i), g);
    lemma_sum_extend(f.len() as int, 2 * m, g);
    lemma_sum_pairs(m, g);
    assert(complement(p).drop_first() =~= complement(q));
    let pairs = |i: int| g(2 * i) + g(2 * i + 1);
    let direct = |i: int| folded[i] * eq_at(q, i);
    assert forall|i: int| 0 <= i < m implies #[trigger] pairs(i) == direct(i) by {
        let e = eq_at(q, i);
        assert((2 * i) % 2 == 0 && (2 * i) / 2 == i);
        assert((2 * i + 1) % 2 == 1 && (2 * i + 1) / 2 == i);
        assert(eq_at(p, 2 * i) == (1 - r) * e);
        assert(eq_at(p, 2 * i + 1) == r * e);
        let x = at(f, 2 * i);
        let y = at(f, 2 * i + 1);
        assert(x * ((1 - r) * e) + y * (r * e) == (x + (y - x) * r) * e) by (nonlinear_arith);
    }
    lemma_sum_eq(m, pairs, direct);
}

/// The value of the polynomial after setting several of the first variables.
pub proof fn lemma_mle_fold_all(f: Seq<int>, p: Seq<int>, k: int)
    requires
        0 <= k <= p.len(),
    ensures
        mle(f, p) == mle(fold_all(f, p.take(k)), p.skip(k)),
    decreases k,
{
    if k == 0 {
        assert(p.skip(0) =~= p);
        assert(p.take(0).len() == 0);
    } else {
        lemma_mle_fold(f, p);
        let q = p.drop_first();
        lemma_mle_fold_all(fold(f, p[0]), q, k - 1);
        assert(q.take(k - 1) =~= p.take(k).drop_first());
        assert(q.skip(k - 1) =~= p.skip(k));
    }
}

/// At the empty point the first entry is left.
pub proof fn lemma_mle_constant(f: Seq<int>)
    requires
        f.len() > 0,
    ensures
        mle(f, Seq::<int>::empty()) == f[0],
{
    let p = Seq::<int>::empty();
    let g = |i: int| f[i] * eq_at(p, i);
    assert forall|i: int| 0 <= i < f.len() implies #[trigger] g(i) == if i == 0 {
        f[0]
    } else {
        0
    } by {
        assert(complement(p).len() == 0);
        assert(f[i] * 1 == f[i] && f[i] * 0 == 0);
    }
    lemma_sum_single(f.len() as int, 0, g);
}

/// The length that is left after setting `k` variables of at most `2^n` values.
pub proof fn lemma_half_len(len: int, n: nat)
    requires
        0 < len <= pow2(n + 1),
    ensures
        0 < (len + 1) / 2 <= pow2(n),
{
    lemma_pow2_step(n);
}

/// Zeros at the end change nothing.
pub proof fn lemma_mle_pad(f: Seq<int>, g: Seq<int>, p: Seq<int>)
    requires
        f.len() <= g.len(),
        forall|i: int| 0 <= i < g.len() ==> #[trigger] g[i] == at(f, i),
    ensures
        mle(f, p) == mle(g, p),
{
    let a = |i: int| f[i] * eq_at(p, i);
    let b = |i: int| g[i] * eq_at(p, i);
    lemma_sum_eq(f.len() as int, a, b);
    assert forall|i: int| f.len() <= i < g.len() implies #[trigger] b(i) == 0 by {
        assert(g[i] == 0);
        assert(0 * eq_at(p, i) == 0);
    }
    lemma_sum_extend(f.len() as int, g.len() as int, b);
}

/// The two `eq_at` multiply to one `prod_at`.
pub proof fn lemma_eq_product(r: Seq<int>, p: Seq<int>, i: int)
    requires
        r.len() == p.len(),
    ensures
        eq_at(r, i) * eq_at(p, i) == prod_at(both_zero(r, p), both_one(r, p), i),
    decreases r.len(),
{
    if r.len() == 0 {
        assert(complement(r).len() == 0 && complement(p).len() == 0);
    } else {
        lemma_eq_product(r.drop_first(), p.drop_first(), i / 2);
        assert(complement(r).drop_first() =~= complement(r.drop_first()));
        assert(complement(p).drop_first() =~= complement(p.drop_first()));
        assert(both_zero(r, p).drop_first() =~= both_zero(r.drop_first(), p.drop_first()));
        assert(both_one(r, p).drop_first() =~= both_one(r.drop_first(), p.drop_first()));
        let x = if i % 2 == 1 { r[0] } else { 1 - r[0] };
        let y = if i % 2 == 1 { p[0] } else { 1 - p[0] };
        let e = eq_at(r.drop_first(), i / 2);
        let f = eq_at(p.drop_first(), i / 2);
        assert((x * e) * (y * f) == (x * y) * (e * f)) by (nonlinear_arith);
    }
}

/// The products of the complements of the coordinates.
pub open spec fn both_zero(r: Seq<int>, p: Seq<int>) -> Seq<int> {
    Seq::new(p.len(), |i: int| (1 - r[i]) * (1 - p[i]))
}

/// The products of the coordinates.
pub open spec fn both_one(r: Seq<int>, p: Seq<int>) -> Seq<int> {
    Seq::new(p.len(), |i: int| r[i] * p[i])
}

/// The value at `p` of the polynomial whose values are `eq_at(r, i)` is the
/// product over the coordinates of `r * p + (1 - r) * (1 - p)`.
pub proof fn law_eq_of_eq(r: Seq<int>, p: Seq<int>)
    requires
        r.len() == p.len(),
    ensures
        eq_prefix(r, p, pow2(p.len()) as int) == eq_points(r, p, p.len() as int),
        mle(Seq::new(pow2(p.len()), |i: int| eq_at(r, i)), p) == eq_points(r, p, p.len() as int),
{
    let n = pow2(p.len()) as int;
    let a = both_zero(r, p);
    let b = both_one(r, p);
    let f = |i: int| eq_at(r, i) * eq_at(p, i);
    let g = |i: int| prod_at(a, b, i);
    assert forall|i: int| 0 <= i < n implies #[trigger] f(i) == g(i) by {
        lemma_eq_product(r, p, i);
    }
    lemma_sum_eq(n, f, g);
    lemma_prod_at_total(a, b);
    lemma_product_eq(
        p.len() as int,
        |i: int| a[i] + b[i],
        |i: int| r[i] * p[i] + (1 - r[i]) * (1 - p[i]),
    );
    let e = Seq::new(pow2(p.len()), |i: int| eq_at(r, i));
    lemma_sum_eq(n, f, |i: int| e[i] * eq_at(p, i));
}

/// The vertex of the cube with `n` variables whose number is `j`, the first bit first.
pub open spec fn vertex(n: nat, j: int) -> Seq<int>
    decreases n,
{
    if n == 0 {
        Seq::empty()
    } else {
        seq![j % 2] + vertex((n - 1) as nat, j / 2)
    }
}

proof fn lemma_eq_vertex(n: nat, j: int, i: int)
    requires
        0 <= j < pow2(n),
        0 <= i < pow2(n),
    ensures
        vertex(n, j).len() == n,
        eq_at(vertex(n, j), i) == if i == j {
            1int
        } else {
            0
        },
    decreases n,
{
    if n == 0 {
        vstd::arithmetic::power2::lemma2_to64();
    } else {
        let m = (n - 1) as nat;
        lemma_pow2_step(m);
        lemma_eq_vertex(m, j / 2, i / 2);
        let p = vertex(n, j);
        let rest = vertex(m, j / 2);
        assert(p.drop_first() =~= rest);
        assert(complement(p).drop_first() =~= complement(rest));
        let x = prod_at(complement(rest), rest, i / 2);
        assert(0 * x == 0 && 1 * x == x);
        assert(p[0] == j % 2);
        assert(complement(p)[0] == 1 - j % 2);
    }
}

/// At a vertex of the cube the multilinear polynomial has the value that was given for
/// the vertex.
pub proof fn law_vertex(f: Seq<int>, n: nat, j: int)
    requires
        f.len() <= pow2(n),
        0 <= j < pow2(n),
    ensures
        mle(f, vertex(n, j)) == at(f, j),
{
    let p = vertex(n, j);
    let g = |i: int| f[i] * eq_at(p, i);
    let len = f.len() as int;
    assert forall|i: int| 0 <= i < len && i != j implies #[trigger] g(i) == 0 by {
        lemma_eq_vertex(n, j, i);
        assert(f[i] * 0 == 0);
    }
    if j < len {
        lemma_eq_vertex(n, j, j);
        lemma_sum_single(len, j, g);
        assert(f[j] * 1 == f[j]);
    } else {
        lemma_sum_zero(len, g);
    }
}

/// The `eq_at` of a point sum to one over the cube.
pub proof fn lemma_eq_total(p: Seq<int>)
    ensures
        ones_prefix(p, pow2(p.len()) as int) == 1,
{
    let a = complement(p);
    lemma_prod_at_total(a, p);
    lemma_sum_eq(pow2(p.len()) as int, |i: int| eq_at(p, i), |i: int| prod_at(a, p, i));
    lemma_product_eq(p.len() as int, |i: int| a[i] + p[i], |i: int| 1int);
    lemma_product_ones(p.len() as int);
}

proof fn lemma_product_ones(n: int)
    ensures
        product_to(n, |i: int| 1int) == 1,
    decreases n,
{
    if n > 0 {
        lemma_product_ones(n - 1);
    }
}

/// The coordinates past the length of a shorter point are zero bits below its
/// number of vertices.
pub proof fn lemma_eq_suffix(r: Seq<int>, m: int, i: int)
    requires
        0 <= m <= r.len(),
        0 <= i < pow2(m as nat),
    ensures
        eq_at(r, i) == eq_at(r.take(m), i) * product_to(r.len() - m, |j: int| 1 - r[m + j]),
    decreases r.len() - m,
{
    let g = |j: int| 1 - r[m + j];
    if m == r.len() {
        assert(r.take(m) =~= r);
        assert(eq_at(r, i) * 1 == eq_at(r, i));
    } else {
        let n = (r.len() - 1) as nat;
        let r0 = r.drop_last();
        lemma_pow2_mono(m as nat, n);
        lemma_pow2_step(n);
        assert(complement(r).drop_last() =~= complement(r0));
        lemma_prod_at_last(complement(r), r, i);
        lemma_small_mod(i as nat, pow2(n));
        lemma_eq_suffix(r0, m, i);
        assert(r0.take(m) =~= r.take(m));
        lemma_product_eq(r0.len() - m, |j: int| 1 - r0[m + j], g);
        let x = eq_at(r.take(m), i);
        let y = product_to(n - m, g);
        assert(g(n - m) == 1 - r.last());
        assert((x * y) * (1 - r.last()) == x * (y * (1 - r.last()))) by (nonlinear_arith);
    }
}

/// A multilinear polynomial.
#[derive(Clone)]
pub struct MlPoly(pub Vec<Fr>);

impl View for MlPoly {
    type V = Seq<int>;

    open spec fn view(&self) -> Seq<int> {
        values(self.0@)
    }
}

/// Sets the first variable of a polynomial in place.
pub fn fold_values(v: &mut Vec<Fr>, r: Fr)
    ensures
        values(final(v)@) == fold(values(old(v)@), r@),
{
    let ghost orig = v@;
    let cur_len: usize = v.len();
    let new_len: usize = cur_len / 2 + cur_len % 2;
    let one = Fr::one();
    for i in 0..new_len
        invariant
            new_len == (cur_len + 1) / 2,
            v.len() == cur_len,
            cur_len == orig.len(),
            one@ == 1,
            forall|j: int| i <= j < cur_len ==> v[j] == orig[j],
            forall|j: int|
                0 <= j < i ==> (#[trigger] v[j])@ == fold(values(orig), r@)[j],
    {
        assert(2 * i < cur_len);
        let ghost f = values(orig);
        assert(i <= 2 * i && (v@[2 * i]) == orig[2 * i]);
        if i * 2 + 1 < cur_len {
            assert(v@[2 * i + 1] == orig[2 * i + 1]);
            let x = v[i * 2] + (v[i * 2 + 1] - v[i * 2]) * r;
            assert(x@ == fold(f, r@)[i as int]);
            v.set(i, x);
        } else {
            let x = v[i * 2] * (one - r);
            assert(x@ == fold(f, r@)[i as int]) by {
                let y = f[2 * i];
                assert(y * (1 - r@) == y + (0 - y) * r@) by (nonlinear_arith);
            }
            v.set(i, x);
        }
    }
    v.truncate(new_len);
    assert(values(v@) =~= fold(values(orig), r@));
}

impl MlPoly {
    /// The polynomial with the given values.
    pub fn new(v: Vec<Fr>) -> (out: MlPoly)
        ensures
            out.0 == v,
    {
        MlPoly(v)
    }

    /// A copy.
    pub fn copy(&self) -> (out: MlPoly)
        ensures
            out.0@ == self.0@,
    {
        MlPoly(copied(&self.0))
    }

    /// The value at a point with enough coordinates for all the values.
    pub fn eval(self, point: &[Fr]) -> (out: Fr)
        requires
            0 < self.0.len() <= pow2(point@.len()),
        ensures
            out@ == mle(self@, values(point@)),
    {
        let mut scratch = self.0;
        let ghost f = values(scratch@);
        let ghost p = values(point@);
        assert(p.skip(0) =~= p);
        for k in 0..point.len()
            invariant
                p == values(point@),
                mle(f, p) == mle(values(scratch@), p.skip(k as int)),
                0 < scratch.len() <= pow2((point@.len() - k) as nat),
        {
            proof {
                let q = p.skip(k as int);
                lemma_mle_fold(values(scratch@), q);
                assert(q.drop_first() =~= p.skip(k + 1));
                assert(q[0] == point@[k as int]@);
                lemma_half_len(scratch.len() as int, (point@.len() - k - 1) as nat);
            }
            fold_values(&mut scratch, point[k]);
            assert(values(scratch@).len() == scratch.len());
        }
        proof {
            lemma_pow2_step(0);
            assert(p.skip(p.len() as int) =~= Seq::<int>::empty());
            lemma_mle_constant(values(scratch@));
        }
        scratch[0]
    }

    /// The chunks of `n` consecutive values, the last one filled up with zeros.
    pub fn split(&self, n: usize) -> (out: Vec<MlPoly>)
        requires
            n > 0,
            self.0.len() + n <= usize::MAX,
        ensures
            out.len() == (self.0.len() + n - 1) / n as int,
            forall|i: int|
                0 <= i < out.len() ==> (#[trigger] out[i])@ == Seq::new(
                    n as nat,
                    |j: int| at(self@, i * n + j),
                ),
    {
        let len: usize = self.0.len();
        let num_chunks: usize = (len + n - 1) / n;
        let mut polies: Vec<MlPoly> = Vec::new();
        for i in 0..num_chunks
            invariant
                n > 0,
                len == self.0.len(),
                len + n <= usize::MAX,
                num_chunks == (len + n - 1) / n as int,
                polies.len() == i,
                forall|k: int|
                    0 <= k < i ==> (#[trigger] polies[k])@ == Seq::new(
                        n as nat,
                        |j: int| at(self@, k * n + j),
                    ),
        {
            assert(i * n < len) by (nonlinear_arith)
                requires
                    n > 0,
                    i < num_chunks,
                    num_chunks == (len + n - 1) / n as int,
            ;
            let start: usize = i * n;
            let mut chunk: Vec<Fr> = Vec::new();
            for j in 0..n
                invariant
                    chunk.len() == j,
                    start == i * n,
                    start < len,
                    len == self.0.len(),
                    len + n <= usize::MAX,
                    forall|k: int| 0 <= k < j ==> (#[trigger] chunk[k])@ == at(self@, i * n + k),
            {
                if start + j < len {
                    chunk.push(self.0[start + j]);
                } else {
                    chunk.push(Fr::zero());
                }
            }
            let p = MlPoly(chunk);
            assert(p@ =~= Seq::new(n as nat, |j: int| at(self@, i * n + j)));
            polies.push(p);
        }
        polies
    }

    /// Sets the first variables to the coordinates of `point`.
    pub fn fold(&mut self, point: &[Fr])
        ensures
            final(self)@ == fold_all(old(self)@, values(point@)),
    {
        let ghost f = self@;
        let ghost p = values(point@);
        assert(p.skip(0) =~= p);
        for k in 0..point.len()
            invariant
                p == values(point@),
                fold_all(f, p) == fold_all(self@, p.skip(k as int)),
        {
            assert(p.skip(k as int).drop_first() =~= p.skip(k + 1));
            assert(p.skip(k as int)[0] == point@[k as int]@);
            fold_values(&mut self.0, point[k]);
        }
    }

    /// The polynomial whose value at vertex `i` is `eq_at(point, i)`.
    pub fn new_eq(point: &Vec<Fr>) -> (out: MlPoly)
        requires
            pow2(point.len() as nat) <= usize::MAX,
        ensures
            out.0.len() == pow2(point.len() as nat),
            forall|i: int|
                0 <= i < out.0.len() ==> (#[trigger] out.0[i])@ == eq_at(values(point@), i),
    {
        let one = Fr::one();
        let mut evals: Vec<Fr> = Vec::new();
        evals.push(one);
        let n: usize = point.len();
        let ghost p = values(point@);
        proof {
            lemma_pow2_step(0);
            assert(complement(p.skip(n as int)).len() == 0);
        }
        for k in 0..n
            invariant
                n == point.len(),
                p == values(point@),
                one@ == 1,
                evals.len() == pow2(k as nat),
                pow2(n as nat) <= usize::MAX,
                forall|i: int|
                    0 <= i < evals.len() ==> (#[trigger] evals[i])@ == eq_at(p.skip(n - k), i),
        {
            let c: Fr = point[n - 1 - k];
            let len: usize = evals.len();
            let mut next: Vec<Fr> = Vec::new();
            let ghost q = p.skip(n - k - 1);
            proof {
                lemma_pow2_step(k as nat);
                lemma_pow2_mono((k + 1) as nat, n as nat);
                assert(q.drop_first() =~= p.skip(n - k));
                assert(complement(q).drop_first() =~= complement(p.skip(n - k)));
                assert(q[0] == c@);
            }
            for i in 0..len
                invariant
                    len == evals.len(),
                    one@ == 1,
                    next.len() == 2 * i,
                    q.len() > 0,
                    q[0] == c@,
                    q.drop_first() == p.skip(n - k),
                    complement(q).drop_first() == complement(p.skip(n - k)),
                    forall|i: int|
                        0 <= i < evals.len() ==> (#[trigger] evals[i])@ == eq_at(p.skip(n - k), i),
                    forall|j: int| 0 <= j < next.len() ==> (#[trigger] next[j])@ == eq_at(q, j),
            {
                next.push((one - c) * evals[i]);
                next.push(c * evals[i]);
                assert((2 * i) % 2 == 0 && (2 * i) / 2 == i);
                assert((2 * i + 1) % 2 == 1 && (2 * i + 1) / 2 == i);
                assert(eq_at(q, 2 * i) == (1 - c@) * eq_at(p.skip(n - k), i as int));
                assert(eq_at(q, 2 * i + 1) == c@ * eq_at(p.skip(n - k), i as int));
            }
            evals = next;
        }
        assert(p.skip(0) =~= p);
        MlPoly(evals)
    }

    /// The product over the common coordinates of `r * p + (1 - r) * (1 - p)`.
    pub fn eval_eq(r: &Vec<Fr>, point: &Vec<Fr>) -> (out: Fr)
        ensures
            out@ == eq_points(
                values(r@),
                values(point@),
                min(r.len() as int, point.len() as int),
            ),
    {
        let one = Fr::one();
        let n: usize = if r.len() <= point.len() {
            r.len()
        } else {
            point.len()
        };
        let mut res = one;
        for i in 0..n
            invariant
                n <= r.len(),
                n <= point.len(),
                one@ == 1,
                res@ == eq_points(values(r@), values(point@), i as int),
        {
            res = res * (r[i] * point[i] + (one - r[i]) * (one - point[i]));
        }
        res
    }

    /// The sum over the vertices below `n` of the product of the two `eq_at`.
    pub fn eval_eq_pref(r: &Vec<Fr>, point: &Vec<Fr>, n: usize) -> (out: Fr)
        requires
            point.len() <= r.len(),
            pow2(point.len() as nat) <= usize::MAX,
        ensures
            out@ == eq_prefix(
                values(r@),
                values(point@),
                min(n as int, pow2(point.len() as nat) as int),
            ),
    {
        let k: usize = r.len();
        let m: usize = point.len();
        let one = Fr::one();
        let ghost rv = values(r@);
        let ghost pv = values(point@);
        let ghost r0 = rv.take(m as int);
        let ghost a = both_zero(r0, pv);
        let ghost b = both_one(r0, pv);
        let ghost tail = product_to(k - m, |j: int| 1 - rv[m + j]);
        let mut suffix = one;
        for i in m..k
            invariant
                m <= i <= k,
                k == r.len(),
                rv == values(r@),
                one@ == 1,
                suffix@ == product_to(i - m, |j: int| 1 - rv[m + j]),
        {
            suffix = suffix * (one - r[i]);
        }
        proof {
            // The sum is that of `prod_at`, times the product for the zero bits.
            let count = min(n as int, pow2(m as nat) as int);
            let f = |i: int| eq_at(rv, i) * eq_at(pv, i);
            let g = |i: int| prod_at(a, b, i);
            assert forall|i: int| 0 <= i < count implies #[trigger] f(i) == (|j: int| tail * g(j))(
                i,
            ) by {
                lemma_eq_suffix(rv, m as int, i);
                lemma_eq_product(r0, pv, i);
                let x = eq_at(r0, i);
                let y = eq_at(pv, i);
                assert((x * tail) * y == tail * (x * y)) by (nonlinear_arith);
            }
            lemma_sum_eq(count, f, |j: int| tail * g(j));
            lemma_sum_scale(count, tail, g);
        }
        let full: usize = two_pow(m);
        if n >= full {
            let mut res = one;
            for i in 0..m
                invariant
                    m <= r.len(),
                    m == point.len(),
                    rv == values(r@),
                    pv == values(point@),
                    r0 == rv.take(m as int),
                    a == both_zero(r0, pv),
                    b == both_one(r0, pv),
                    one@ == 1,
                    res@ == product_to(i as int, |j: int| a[j] + b[j]),
            {
                res = res * (r[i] * point[i] + (one - r[i]) * (one - point[i]));
            }
            proof {
                lemma_prod_at_total(a, b);
                assert(res@ * tail == tail * res@) by (nonlinear_arith);
            }
            return res * suffix;
        }
        let mut prefix_prod: Vec<Fr> = Vec::new();
        prefix_prod.push(one);
        for i in 0..m
            invariant
                m <= r.len(),
                m == point.len(),
                rv == values(r@),
                pv == values(point@),
                r0 == rv.take(m as int),
                a == both_zero(r0, pv),
                b == both_one(r0, pv),
                one@ == 1,
                prefix_prod.len() == i + 1,
                forall|j: int|
                    0 <= j <= i ==> (#[trigger] prefix_prod[j])@ == product_to(
                        j,
                        |l: int| a[l] + b[l],
                    ),
        {
            let eq_rp = r[i] * point[i] + (one - r[i]) * (one - point[i]);
            let next = prefix_prod[i] * eq_rp;
            prefix_prod.push(next);
        }
        let mut result = Fr::zero();
        let mut carry = one;
        let mut rest: usize = n;
        let mut half: usize = full;
        assert(a.take(m as int) =~= a && b.take(m as int) =~= b);
        for step in 0..m
            invariant
                m <= r.len(),
                m == point.len(),
                rv == values(r@),
                pv == values(point@),
                r0 == rv.take(m as int),
                a == both_zero(r0, pv),
                b == both_one(r0, pv),
                one@ == 1,
                prefix_prod.len() == m + 1,
                forall|j: int|
                    0 <= j <= m ==> (#[trigger] prefix_prod[j])@ == product_to(
                        j,
                        |l: int| a[l] + b[l],
                    ),
                half == pow2((m - step) as nat),
                rest < half,
                sum_to(n as int, |i: int| prod_at(a, b, i)) == result@ + carry@ * sum_to(
                    rest as int,
                    |i: int| prod_at(a.take(m - step), b.take(m - step), i),
                ),
        {
            let bit: usize = m - 1 - step;
            let ghost a1 = a.take(m - step);
            let ghost b1 = b.take(m - step);
            proof {
                lemma_pow2_step(bit as nat);
                lemma_prod_prefix_step(a1, b1, rest as int);
                assert(a1.drop_last() =~= a.take(bit as int));
                assert(b1.drop_last() =~= b.take(bit as int));
            }
            half = half / 2;
            let phi_0 = (one - r[bit]) * (one - point[bit]);
            if rest >= half {
                proof {
                    lemma_prod_at_total(a.take(bit as int), b.take(bit as int));
                    lemma_product_eq(
                        bit as int,
                        |l: int| a.take(bit as int)[l] + b.take(bit as int)[l],
                        |l: int| a[l] + b[l],
                    );
                    let c = carry@;
                    let p = a1.last();
                    let x = sum_to(
                        half as int,
                        |i: int| prod_at(a.take(bit as int), b.take(bit as int), i),
                    );
                    let q = b1.last();
                    let y = sum_to(
                        rest - half,
                        |i: int| prod_at(a.take(bit as int), b.take(bit as int), i),
                    );
                    assert(c * (p * x + q * y) == c * p * x + (c * q) * y) by (nonlinear_arith);
                }
                result = result + carry * phi_0 * prefix_prod[bit];
                carry = carry * (r[bit] * point[bit]);
                rest = rest - half;
            } else {
                proof {
                    let c = carry@;
                    let p = a1.last();
                    let x = sum_to(
                        rest as int,
                        |i: int| prod_at(a.take(bit as int), b.take(bit as int), i),
                    );
                    assert(c * (p * x) == (c * p) * x) by (nonlinear_arith);
                }
                carry = carry * phi_0;
            }
        }
        proof {
            lemma_pow2_step(0);
            assert(carry@ * 0 == 0);
            assert(result@ * tail == tail * result@) by (nonlinear_arith);
        }
        result * suffix
    }

    /// The value at `point` of the polynomial that is one at the vertices below
    /// `n` and zero at the others.
    pub fn eval_ones_pref(point: &[Fr], n: usize) -> (out: Fr)
        requires
            pow2(point@.len()) <= usize::MAX,
        ensures
            out@ == ones_prefix(values(point@), min(n as int, pow2(point@.len()) as int)),
    {
        let nv: usize = point.len();
        let one = Fr::one();
        let full: usize = two_pow(nv);
        let ghost b = values(point@);
        let ghost a = complement(b);
        if n >= full {
            proof {
                lemma_eq_total(b);
            }
            return one;
        }
        let mut result = Fr::zero();
        let mut carry = one;
        let mut rest: usize = n;
        let mut half: usize = full;
        proof {
            assert(a.take(nv as int) =~= a && b.take(nv as int) =~= b);
            lemma_sum_eq(n as int, |i: int| eq_at(b, i), |i: int| prod_at(a, b, i));
        }
        for step in 0..nv
            invariant
                nv == point@.len(),
                b == values(point@),
                a == complement(b),
                one@ == 1,
                half == pow2((nv - step) as nat),
                rest < half,
                sum_to(n as int, |i: int| prod_at(a, b, i)) == result@ + carry@ * sum_to(
                    rest as int,
                    |i: int| prod_at(a.take(nv - step), b.take(nv - step), i),
                ),
        {
            let bit: usize = nv - 1 - step;
            let ghost a1 = a.take(nv - step);
            let ghost b1 = b.take(nv - step);
            proof {
                lemma_pow2_step(bit as nat);
                lemma_prod_prefix_step(a1, b1, rest as int);
                assert(a1.drop_last() =~= a.take(bit as int));
                assert(b1.drop_last() =~= b.take(bit as int));
            }
            half = half / 2;
            if rest >= half {
                proof {
                    let lower = b.take(bit as int);
                    assert(a.take(bit as int) =~= complement(lower));
                    lemma_eq_total(lower);
                    lemma_sum_eq(
                        half as int,
                        |i: int| eq_at(lower, i),
                        |i: int| prod_at(a.take(bit as int), b.take(bit as int), i),
                    );
                    let c = carry@;
                    let p = a1.last();
                    let q = b1.last();
                    let y = sum_to(
                        rest - half,
                        |i: int| prod_at(a.take(bit as int), b.take(bit as int), i),
                    );
                    assert(c * (p * 1 + q * y) == c * p + (c * q) * y) by (nonlinear_arith);
                }
                result = result + carry * (one - point[bit]);
                carry = carry * point[bit];
                rest = rest - half;
            } else {
                proof {
                    let c = carry@;
                    let p = a1.last();
                    let x = sum_to(
                        rest as int,
                        |i: int| prod_at(a.take(bit as int), b.take(bit as int), i),
                    );
                    assert(c * (p * x) == (c * p) * x) by (nonlinear_arith);
                }
                carry = carry * (one - point[bit]);
            }
        }
        proof {
            lemma_pow2_step(0);
            assert(carry@ * 0 == 0);
        }
        result
    }
}

} // verus!
